//! What can be chosen about a drawing of the events of schedules.

use crate::settings::{edge_palette, EdgeStyle, RankDir, SystemFilter, texts};
use crate::text::{starts_with, str_eq};
use vstd::prelude::*;

verus! {

/// The look of a drawing of events. Widths are held as they are written.
#[derive(Clone)]
pub struct Style {
    pub schedule_rankdir: RankDir,
    pub edge_style: EdgeStyle,
    pub fontname: String,
    pub color_background: String,
    pub color_schedule: String,
    pub color_schedule_label: String,
    pub color_schedule_border: String,
    pub color_edge: Vec<String>,
    pub penwidth_edge: String,
}

impl Style {
    /// Whether the style is one of the given background and colours for
    /// schedules, and in everything else as all styles of this library are.
    pub open spec fn is_theme(
        &self,
        background: Seq<char>,
        schedule: Seq<char>,
        schedule_border: Seq<char>,
        schedule_label: Seq<char>,
    ) -> bool {
        &&& self.schedule_rankdir == RankDir::LeftRight
        &&& self.edge_style == EdgeStyle::Spline
        &&& self.fontname@ == "Helvetica"@
        &&& self.color_background@ == background
        &&& self.color_schedule@ == schedule
        &&& self.color_schedule_border@ == schedule_border
        &&& self.color_schedule_label@ == schedule_label
        &&& texts(self.color_edge@) == edge_palette()
        &&& self.penwidth_edge@ == "2"@
    }

    fn theme(background: &str, schedule: &str, schedule_border: &str, schedule_label: &str) -> (style:
        Style)
        ensures
            style.is_theme(background@, schedule@, schedule_border@, schedule_label@),
    {
        Style {
            schedule_rankdir: RankDir::default(),
            edge_style: EdgeStyle::default(),
            fontname: "Helvetica".to_owned(),
            color_background: background.to_owned(),
            color_schedule: schedule.to_owned(),
            color_schedule_border: schedule_border.to_owned(),
            color_schedule_label: schedule_label.to_owned(),
            color_edge: crate::settings::Style::light().color_edge,
            penwidth_edge: "2".to_owned(),
        }
    }

    /// Dark text on a white background.
    pub fn light() -> (style: Style)
        ensures
            style.is_theme("white"@, "#00000008"@, "#00000040"@, "#000000"@),
    {
        Style::theme("white", "#00000008", "#00000040", "#000000")
    }

    /// Light text on the grey of a chat window.
    pub fn dark_discord() -> (style: Style)
        ensures
            style.is_theme("#35393f"@, "#ffffff44"@, "#ffffff50"@, "#ffffff"@),
    {
        Style::theme("#35393f", "#ffffff44", "#ffffff50", "#ffffff")
    }

    /// Light text on the near-black of a code page.
    pub fn dark_github() -> (style: Style)
        ensures
            style.is_theme("#0d1117"@, "#ffffff44"@, "#ffffff50"@, "#ffffff"@),
    {
        Style::theme("#0d1117", "#ffffff44", "#ffffff50", "#ffffff")
    }
}

impl Default for Style {
    fn default() -> (style: Style)
        ensures
            style.is_theme("#0d1117"@, "#ffffff44"@, "#ffffff50"@, "#ffffff"@),
    {
        Style::dark_github()
    }
}

/// The choice of the schedules whose events are drawn.
pub enum ScheduleFilter {
    /// The schedules of every frame: `First`, `PreUpdate`, `Update` and
    /// `PostUpdate`.
    BaseUpdate,
    /// The schedules for which the list says so, by their place in the
    /// list of schedules; a schedule beyond the end of the list is not
    /// chosen.
    Chosen(Vec<bool>),
}

/// Whether a schedule with this label runs every frame around the update.
pub open spec fn is_base_schedule_update(label: Seq<char>) -> bool {
    label == "First"@ || label == "PreUpdate"@ || label == "Update"@ || label == "PostUpdate"@
}

/// Whether a schedule with this label runs every frame around the update.
pub fn base_schedule_update(label: &str) -> (r: bool)
    ensures
        r == is_base_schedule_update(label@),
{
    str_eq(label, "First") || str_eq(label, "PreUpdate") || str_eq(label, "Update") || str_eq(
        label,
        "PostUpdate",
    )
}

/// Whether a system with this name is not one of those that update the
/// queue of an event.
pub fn exclude_bevy_event_update_system(name: &str) -> (r: bool)
    ensures
        r == !"bevy_ecs::event::event_update_system<"@.is_prefix_of(name@),
{
    !starts_with(name, "bevy_ecs::event::event_update_system<")
}

impl ScheduleFilter {
    /// Whether the filter takes the schedule at place `index` with the
    /// label `label`.
    pub open spec fn accepts(&self, index: int, label: Seq<char>) -> bool {
        match *self {
            ScheduleFilter::BaseUpdate => is_base_schedule_update(label),
            ScheduleFilter::Chosen(choice) => 0 <= index < choice@.len() && choice@[index],
        }
    }

    /// Whether the filter takes the schedule at place `index` with the
    /// label `label`.
    pub fn includes(&self, index: usize, label: &str) -> (r: bool)
        ensures
            r == self.accepts(index as int, label@),
    {
        match self {
            ScheduleFilter::BaseUpdate => base_schedule_update(label),
            ScheduleFilter::Chosen(choice) => index < choice.len() && choice[index],
        }
    }
}

/// What can be chosen about a drawing of events.
pub struct Settings {
    pub style: Style,
    /// Where set, only the systems that it takes are drawn.
    pub include_system: Option<SystemFilter>,
    pub include_schedule: Option<ScheduleFilter>,
    pub prettify_system_names: bool,
}

impl Settings {
    /// Whether these are the settings `other` in all but the filter of
    /// systems.
    pub open spec fn same_but_systems(&self, other: Settings) -> bool {
        &&& self.style == other.style
        &&& self.include_schedule == other.include_schedule
        &&& self.prettify_system_names == other.prettify_system_names
    }

    /// Only the systems are chosen for whose names `filter` says so. The
    /// names are those of the table of systems, in its order.
    pub fn filter_name<F: Fn(&str) -> bool>(self, names: &[&str], filter: F) -> (settings: Settings)
        requires
            forall|name: &str| #[trigger] filter.requires((name,)),
        ensures
            settings.same_but_systems(self),
            settings.include_system matches Some(SystemFilter::Chosen(choice))
                && choice@.len() == names@.len() && forall|i: int|
                0 <= i < names@.len() ==> filter.ensures((#[trigger] names@[i],), choice@[i]),
    {
        let mut choice: Vec<bool> = Vec::new();
        for i in 0..names.len()
            invariant
                forall|name: &str| #[trigger] filter.requires((name,)),
                choice@.len() == i,
                forall|j: int| 0 <= j < i ==> filter.ensures((#[trigger] names@[j],), choice@[j]),
        {
            let decision = filter(names[i]);
            choice.push(decision);
        }
        let mut settings = self;
        settings.include_system = Some(SystemFilter::Chosen(choice));
        settings
    }

    /// Only the systems of the given crate are chosen: those whose name
    /// begins with its name.
    pub fn filter_in_crate(self, crate_: &str) -> (settings: Settings)
        ensures
            settings.same_but_systems(self),
            settings.include_system matches Some(SystemFilter::InCrates(crates)) && texts(crates@)
                == seq![crate_@],
    {
        let mut crates: Vec<String> = Vec::new();
        crates.push(crate_.to_owned());
        assert(texts(crates@) =~= seq![crate_@]);
        let mut settings = self;
        settings.include_system = Some(SystemFilter::InCrates(crates));
        settings
    }

    /// Only the systems of the given crates are chosen: those whose name
    /// begins with the name of one of them.
    pub fn filter_in_crates(self, crates: &[&str]) -> (settings: Settings)
        ensures
            settings.same_but_systems(self),
            settings.include_system matches Some(SystemFilter::InCrates(owned)) && texts(owned@)
                == Seq::new(crates@.len(), |i: int| crates@[i]@),
    {
        let mut owned: Vec<String> = Vec::new();
        for i in 0..crates.len()
            invariant
                owned@.len() == i,
                forall|j: int| 0 <= j < i ==> (#[trigger] owned@[j])@ == crates@[j]@,
        {
            owned.push(crates[i].to_owned());
        }
        assert(texts(owned@) =~= Seq::new(crates@.len(), |i: int| crates@[i]@));
        let mut settings = self;
        settings.include_system = Some(SystemFilter::InCrates(owned));
        settings
    }
}

impl Default for Settings {
    fn default() -> (settings: Settings)
        ensures
            settings.style.is_theme("#0d1117"@, "#ffffff44"@, "#ffffff50"@, "#ffffff"@),
            settings.include_system matches Some(SystemFilter::Excluding(crates)) && texts(crates@)
                == seq!["bevy_ecs::event::event_update_system<"@],
            settings.include_schedule matches Some(ScheduleFilter::BaseUpdate),
            settings.prettify_system_names,
    {
        let mut excluded: Vec<String> = Vec::new();
        excluded.push("bevy_ecs::event::event_update_system<".to_owned());
        assert(texts(excluded@) =~= seq!["bevy_ecs::event::event_update_system<"@]);
        Settings {
            style: Style::default(),
            include_system: Some(SystemFilter::Excluding(excluded)),
            include_schedule: Some(ScheduleFilter::BaseUpdate),
            prettify_system_names: true,
        }
    }
}

} // verus!
