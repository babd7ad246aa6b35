//! Draws which systems write and which systems read the events of
//! schedules.

pub mod settings;
pub mod system_style;

use crate::collections::{id_bucket, IdMap, IdSet};
use crate::dot::{
    attr_views, default_attributes, DotGraph, edge_statement, graph_header, nested_block,
    node_statement,
};
use crate::event_graph::settings::Settings;
use crate::graph::NodeId;
use crate::names::{
    check_pretty_printable, find_first, first_place, is_pretty_printable, pretty_name,
    pretty_type_name,
};
use crate::sequences::lemma_push_membership;
use crate::settings::NodeStyle;
use crate::text::{chars_of, decimal, push_decimal, starts_with, string_of};
use vstd::prelude::*;

verus! {

/// One system of a schedule, with the components that it reads and those
/// that it writes, by their numbers.
pub struct EventSystem {
    /// The full name of the system.
    pub name: String,
    /// The colours of the system's node.
    pub style: NodeStyle,
    pub reads: Vec<usize>,
    pub writes: Vec<usize>,
}

/// One component of the world. Its number is its place in the table of
/// components.
pub struct EventComponent {
    /// The full name of the component's type.
    pub name: String,
    /// The colours of the node of the event, if the component holds one.
    pub style: NodeStyle,
}

/// A schedule: its label as it is written, and its systems.
pub struct EventSchedule {
    pub label: String,
    pub systems: Vec<EventSystem>,
}

/// What the names of the components begin with that hold the queue of an
/// event.
pub open spec fn events_prefix() -> Seq<char> {
    "bevy_ecs::event::Events"@
}

/// Whether the component with the number `id` holds the queue of an event.
pub open spec fn is_event(components: Seq<EventComponent>, id: usize) -> bool {
    id < components.len() && events_prefix().is_prefix_of(components[id as int].name@)
}

/// Whether the settings ask for the system at place `i` of the schedule.
pub open spec fn is_asked_for(schedule: EventSchedule, settings: &Settings, i: int) -> bool {
    &&& 0 <= i < schedule.systems@.len()
    &&& match settings.include_system {
        Some(filter) => filter.accepts(i, schedule.systems@[i].name@),
        None => true,
    }
}

/// Those of the components `ids` that hold events, in their order.
pub open spec fn events_among(components: Seq<EventComponent>, ids: Seq<usize>) -> Seq<usize>
    decreases ids.len(),
{
    if ids.len() == 0 {
        Seq::empty()
    } else if is_event(components, ids.last()) {
        events_among(components, ids.drop_last()).push(ids.last())
    } else {
        events_among(components, ids.drop_last())
    }
}

/// The events that the system at place `i` reads, followed by those that
/// it writes; none for a system that the settings do not ask for.
pub open spec fn events_of(
    schedule: EventSchedule,
    settings: &Settings,
    components: Seq<EventComponent>,
    i: int,
) -> Seq<usize> {
    if is_asked_for(schedule, settings, i) {
        events_among(components, schedule.systems@[i].reads@) + events_among(
            components,
            schedule.systems@[i].writes@,
        )
    } else {
        Seq::empty()
    }
}

/// `seen`, followed by those of `found` that it does not hold yet, each
/// once, in their order.
pub open spec fn with_new_ids(seen: Seq<usize>, found: Seq<usize>) -> Seq<usize>
    decreases found.len(),
{
    if found.len() == 0 {
        seen
    } else {
        let before = with_new_ids(seen, found.drop_last());
        if before.contains(found.last()) {
            before
        } else {
            before.push(found.last())
        }
    }
}

/// The events that the first `count` systems of the schedule read or
/// write, each once, in the order in which the systems come to them.
pub open spec fn touched_events(
    schedule: EventSchedule,
    settings: &Settings,
    components: Seq<EventComponent>,
    count: int,
) -> Seq<usize>
    decreases count,
{
    if count <= 0 {
        Seq::empty()
    } else {
        with_new_ids(
            touched_events(schedule, settings, components, count - 1),
            events_of(schedule, settings, components, count - 1),
        )
    }
}

/// `node` once for each time that `event` stands in `ids`.
pub open spec fn occurrences(ids: Seq<usize>, event: usize, node: NodeId) -> Seq<NodeId>
    decreases ids.len(),
{
    if ids.len() == 0 {
        Seq::empty()
    } else if ids.last() == event {
        occurrences(ids.drop_last(), event, node).push(node)
    } else {
        occurrences(ids.drop_last(), event, node)
    }
}

/// The components that a system reads, or those that it writes.
pub open spec fn accesses(system: EventSystem, writing: bool) -> Seq<usize> {
    if writing {
        system.writes@
    } else {
        system.reads@
    }
}

/// Those of the first `count` systems that read the event, or those that
/// write it, in their order; a system stands as often as it names the
/// event.
pub open spec fn users(
    schedule: EventSchedule,
    settings: &Settings,
    components: Seq<EventComponent>,
    event: usize,
    writing: bool,
    count: int,
) -> Seq<NodeId>
    decreases count,
{
    if count <= 0 {
        Seq::empty()
    } else {
        users(schedule, settings, components, event, writing, count - 1) + if is_asked_for(
            schedule,
            settings,
            count - 1,
        ) && is_event(components, event) {
            occurrences(
                accesses(schedule.systems@[count - 1], writing),
                event,
                NodeId::System((count - 1) as usize),
            )
        } else {
            Seq::empty()
        }
    }
}

/// Whether every component that a system of the schedule reads or writes
/// is in the table of components.
pub open spec fn has_components(schedule: EventSchedule, components: Seq<EventComponent>) -> bool {
    forall|i: int, k: int, writing: bool|
        0 <= i < schedule.systems@.len() && 0 <= k < accesses(schedule.systems@[i], writing).len()
            ==> #[trigger] accesses(schedule.systems@[i], writing)[k] < components.len()
}

/// The events of one schedule: which events its systems touch, and for
/// each event the systems that read it and the systems that write it.
pub struct EventGraphContext {
    /// The place of the schedule in the list of schedules.
    pub schedule: usize,
    pub events_tracked: Vec<usize>,
    pub event_readers: IdMap,
    pub event_writers: IdMap,
}

impl EventGraphContext {
    /// Whether this is what the systems of the schedule that the settings
    /// ask for do with events.
    #[verifier::opaque]
    pub open spec fn holds(
        &self,
        schedules: Seq<EventSchedule>,
        components: Seq<EventComponent>,
        settings: &Settings,
    ) -> bool {
        &&& self.schedule < schedules.len()
        &&& self.events_tracked@ == touched_events(
            schedules[self.schedule as int],
            settings,
            components,
            schedules[self.schedule as int].systems@.len() as int,
        )
        &&& forall|event: usize| #[trigger]
            id_bucket(self.event_readers@, event) == users(
                schedules[self.schedule as int],
                settings,
                components,
                event,
                false,
                schedules[self.schedule as int].systems@.len() as int,
            )
        &&& forall|event: usize| #[trigger]
            id_bucket(self.event_writers@, event) == users(
                schedules[self.schedule as int],
                settings,
                components,
                event,
                true,
                schedules[self.schedule as int].systems@.len() as int,
            )
    }
}

/// Takes in the components that one system reads, or those that it writes.
fn track(
    components: &Vec<EventComponent>,
    ids: &Vec<usize>,
    node: NodeId,
    seen: &mut IdSet,
    events: &mut Vec<usize>,
    using: &mut IdMap,
)
    requires
        forall|k: int| 0 <= k < ids@.len() ==> (#[trigger] ids@[k]) < components@.len(),
        forall|e: usize| old(seen)@.contains(e) <==> old(events)@.contains(e),
    ensures
        forall|e: usize| final(seen)@.contains(e) <==> final(events)@.contains(e),
        final(events)@ == with_new_ids(old(events)@, events_among(components@, ids@)),
        forall|e: usize| #[trigger]
            id_bucket(final(using)@, e) == id_bucket(old(using)@, e) + if is_event(components@, e) {
                occurrences(ids@, e, node)
            } else {
                Seq::empty()
            },
{
    assert forall|e: usize| #[trigger]
        id_bucket(using@, e) == id_bucket(old(using)@, e) + if is_event(components@, e) {
            occurrences(ids@.take(0), e, node)
        } else {
            Seq::empty()
        } by {
        assert(id_bucket(old(using)@, e) + Seq::<NodeId>::empty() =~= id_bucket(old(using)@, e));
    }
    for k in 0..ids.len()
        invariant
            forall|k: int| 0 <= k < ids@.len() ==> (#[trigger] ids@[k]) < components@.len(),
            forall|e: usize| seen@.contains(e) <==> events@.contains(e),
            events@ == with_new_ids(old(events)@, events_among(components@, ids@.take(k as int))),
            forall|e: usize| #[trigger]
                id_bucket(using@, e) == id_bucket(old(using)@, e) + if is_event(components@, e) {
                    occurrences(ids@.take(k as int), e, node)
                } else {
                    Seq::empty()
                },
    {
        let id = ids[k];
        let ghost before_events = events@;
        let ghost before_using = using@;
        let ghost before_seen = seen@;
        assert(ids@.take(k + 1).drop_last() =~= ids@.take(k as int));
        assert(ids@.take(k + 1).last() == id);
        if starts_with(components[id].name.as_str(), "bevy_ecs::event::Events") {
            let ghost found = events_among(components@, ids@.take(k as int));
            assert(events_among(components@, ids@.take(k + 1)) == found.push(id));
            assert(found.push(id).drop_last() =~= found);
            if seen.insert(id) {
                events.push(id);
                proof {
                    lemma_push_membership(before_events, id);
                }
            }
            using.push(id, node);
            assert forall|e: usize| #[trigger]
                id_bucket(using@, e) == id_bucket(old(using)@, e) + if is_event(components@, e) {
                    occurrences(ids@.take(k + 1), e, node)
                } else {
                    Seq::empty()
                } by {
                assert(id_bucket(before_using, e) == id_bucket(old(using)@, e) + if is_event(
                    components@,
                    e,
                ) {
                    occurrences(ids@.take(k as int), e, node)
                } else {
                    Seq::empty()
                });
                if e == id {
                    assert(id_bucket(using@, e) =~= id_bucket(before_using, e).push(node));
                    assert(id_bucket(using@, e) =~= id_bucket(old(using)@, e) + occurrences(
                        ids@.take(k + 1),
                        e,
                        node,
                    ));
                } else {
                    assert(id_bucket(using@, e) =~= id_bucket(before_using, e));
                }
            }
        } else {
            assert forall|e: usize| #[trigger]
                id_bucket(using@, e) == id_bucket(old(using)@, e) + if is_event(components@, e) {
                    occurrences(ids@.take(k + 1), e, node)
                } else {
                    Seq::empty()
                } by {
                assert(id_bucket(before_using, e) == id_bucket(old(using)@, e) + if is_event(
                    components@,
                    e,
                ) {
                    occurrences(ids@.take(k as int), e, node)
                } else {
                    Seq::empty()
                });
            }
        }
    }
    assert(ids@.take(ids@.len() as int) =~= ids@);
}

/// Two lists of new items put at the end one after the other are the two
/// lists joined put at the end.
proof fn lemma_with_new_ids_twice(seen: Seq<usize>, first: Seq<usize>, second: Seq<usize>)
    ensures
        with_new_ids(with_new_ids(seen, first), second) == with_new_ids(seen, first + second),
    decreases second.len(),
{
    if second.len() == 0 {
        assert(first + second =~= first);
    } else {
        lemma_with_new_ids_twice(seen, first, second.drop_last());
        assert((first + second).drop_last() =~= first + second.drop_last());
        assert((first + second).last() == second.last());
    }
}

/// Finds what the systems of a schedule that the settings ask for do with
/// events: which events they touch, who reads each and who writes it.
pub fn events_graph_dot(
    schedules: &Vec<EventSchedule>,
    schedule: usize,
    components: &Vec<EventComponent>,
    settings: &Settings,
) -> (context: EventGraphContext)
    requires
        schedule < schedules@.len(),
        has_components(schedules@[schedule as int], components@),
    ensures
        context.schedule == schedule,
        context.holds(schedules@, components@, settings),
{
    let this = &schedules[schedule];
    let mut seen = IdSet::new();
    let mut events: Vec<usize> = Vec::new();
    let mut readers = IdMap::new();
    let mut writers = IdMap::new();
    for i in 0..this.systems.len()
        invariant
            *this == schedules@[schedule as int],
            has_components(*this, components@),
            forall|e: usize| seen@.contains(e) <==> events@.contains(e),
            events@ == touched_events(*this, settings, components@, i as int),
            forall|e: usize| #[trigger]
                id_bucket(readers@, e) == users(*this, settings, components@, e, false, i as int),
            forall|e: usize| #[trigger]
                id_bucket(writers@, e) == users(*this, settings, components@, e, true, i as int),
    {
        let system = &this.systems[i];
        let asked = match &settings.include_system {
            Some(filter) => filter.includes(i, system.name.as_str()),
            None => true,
        };
        assert(asked == is_asked_for(*this, settings, i as int));
        let ghost old_readers = readers@;
        let ghost old_writers = writers@;
        let ghost old_events = events@;
        if asked {
            proof {
                assert forall|k: int| 0 <= k < system.reads@.len() implies (
                #[trigger] system.reads@[k]) < components@.len() by {
                    assert(accesses(this.systems@[i as int], false)[k] < components@.len());
                }
                assert forall|k: int| 0 <= k < system.writes@.len() implies (
                #[trigger] system.writes@[k]) < components@.len() by {
                    assert(accesses(this.systems@[i as int], true)[k] < components@.len());
                }
            }
            track(
                components,
                &system.reads,
                NodeId::System(i),
                &mut seen,
                &mut events,
                &mut readers,
            );
            track(
                components,
                &system.writes,
                NodeId::System(i),
                &mut seen,
                &mut events,
                &mut writers,
            );
            proof {
                lemma_with_new_ids_twice(
                    old_events,
                    events_among(components@, system.reads@),
                    events_among(components@, system.writes@),
                );
            }
        }
        proof {
            assert forall|e: usize| #[trigger]
                id_bucket(readers@, e) == users(*this, settings, components@, e, false, i + 1) by {
                assert(id_bucket(old_readers, e) == users(
                    *this,
                    settings,
                    components@,
                    e,
                    false,
                    i as int,
                ));
                if !(asked && is_event(components@, e)) {
                    assert(id_bucket(old_readers, e) + Seq::<NodeId>::empty() =~= id_bucket(
                        old_readers,
                        e,
                    ));
                }
            }
            assert forall|e: usize| #[trigger]
                id_bucket(writers@, e) == users(*this, settings, components@, e, true, i + 1) by {
                assert(id_bucket(old_writers, e) == users(
                    *this,
                    settings,
                    components@,
                    e,
                    true,
                    i as int,
                ));
                if !(asked && is_event(components@, e)) {
                    assert(id_bucket(old_writers, e) + Seq::<NodeId>::empty() =~= id_bucket(
                        old_writers,
                        e,
                    ));
                }
            }
        }
    }
    proof {
        reveal(EventGraphContext::holds);
    }
    EventGraphContext {
        schedule,
        events_tracked: events,
        event_readers: readers,
        event_writers: writers,
    }
}

/// The name of a system or of an event as it is shown: shortened where
/// the settings ask for it.
pub open spec fn shown_name(name: Seq<char>, settings: &Settings) -> Seq<char> {
    if settings.prettify_system_names {
        pretty_type_name(name)
    } else {
        name
    }
}

/// The name of a system or of an event as it is shown.
pub fn display_name(name: &str, settings: &Settings) -> (shown: String)
    requires
        settings.prettify_system_names ==> is_pretty_printable(name@),
    ensures
        shown@ == shown_name(name@, settings),
{
    if settings.prettify_system_names {
        pretty_name(name)
    } else {
        name.to_owned()
    }
}

/// The attributes of the node of a system or of an event.
pub open spec fn node_attributes(
    shown: Seq<char>,
    tooltip: Seq<char>,
    shape: Seq<char>,
    style: NodeStyle,
    settings: &Settings,
) -> Seq<(Seq<char>, Seq<char>)> {
    seq![
        ("label"@, shown),
        ("tooltip"@, tooltip),
        ("shape"@, shape),
        ("fillcolor"@, style.bg_color@),
        ("fontname"@, settings.style.fontname@),
        ("fontcolor"@, style.text_color@),
        ("color"@, style.border_color@),
        ("penwidth"@, style.border_width@),
    ]
}

/// The node of a system: a box under the system's full name.
pub open spec fn system_text(system: EventSystem, settings: &Settings) -> Seq<char> {
    node_statement(
        system.name@,
        node_attributes(
            shown_name(system.name@, settings),
            system.name@,
            "box"@,
            system.style,
            settings,
        ),
    )
}

/// Whether the name of a component is that of the queue of an event: it
/// has a `<` with more than the end of the name behind it, and ends in a
/// character that takes one byte.
pub open spec fn is_event_name(full: Seq<char>) -> bool {
    first_place(full, '<') + 1 < full.len() && full.last() <= '\u{7f}'
}

/// The name of the event of a component: what stands between the first `<`
/// of the component's name and its last character.
pub open spec fn event_name(full: Seq<char>) -> Seq<char> {
    full.subrange(first_place(full, '<') + 1, full.len() - 1)
}

/// The identifier of the node of an event.
pub open spec fn event_id(event: usize) -> Seq<char> {
    "event_"@ + decimal(event as nat)
}

/// The node of an event: an ellipse.
pub open spec fn event_text(component: EventComponent, event: usize, settings: &Settings) -> Seq<
    char,
> {
    node_statement(
        event_id(event),
        node_attributes(
            shown_name(event_name(component.name@), settings),
            event_name(component.name@),
            "ellipse"@,
            component.style,
            settings,
        ),
    )
}

/// The edges between an event and the systems that write it, or those that
/// read it; the colours of the palette are taken in turn from the place
/// `counter` on.
pub open spec fn user_edges(
    schedule: EventSchedule,
    settings: &Settings,
    event: usize,
    systems: Seq<NodeId>,
    writing: bool,
    counter: int,
) -> Seq<char>
    decreases systems.len(),
{
    if systems.len() == 0 {
        Seq::empty()
    } else {
        let name = schedule.systems@[systems.last().index() as int].name@;
        let color = seq![
            (
                "color"@,
                settings.style.color_edge@[(counter + systems.len() - 1)
                    % settings.style.color_edge@.len() as int]@,
            ),
        ];
        user_edges(schedule, settings, event, systems.drop_last(), writing, counter) + if writing {
            edge_statement(name, None, event_id(event), None, color)
        } else {
            edge_statement(event_id(event), None, name, None, color)
        }
    }
}

/// The systems of the schedule that write the event.
pub open spec fn writers_of(
    schedule: EventSchedule,
    settings: &Settings,
    components: Seq<EventComponent>,
    event: usize,
) -> Seq<NodeId> {
    users(schedule, settings, components, event, true, schedule.systems@.len() as int)
}

/// The systems of the schedule that read the event.
pub open spec fn readers_of(
    schedule: EventSchedule,
    settings: &Settings,
    components: Seq<EventComponent>,
    event: usize,
) -> Seq<NodeId> {
    users(schedule, settings, components, event, false, schedule.systems@.len() as int)
}

/// An event as it is drawn: its node, an edge from each system that writes
/// it, and an edge to each system that reads it.
pub open spec fn event_block(
    schedule: EventSchedule,
    settings: &Settings,
    components: Seq<EventComponent>,
    event: usize,
    counter: int,
) -> Seq<char> {
    event_text(components[event as int], event, settings) + user_edges(
        schedule,
        settings,
        event,
        writers_of(schedule, settings, components, event),
        true,
        counter,
    ) + user_edges(
        schedule,
        settings,
        event,
        readers_of(schedule, settings, components, event),
        false,
        counter + writers_of(schedule, settings, components, event).len(),
    )
}

/// The number of the first `count` contexts that touch the event.
pub open spec fn touching(others: Seq<EventGraphContext>, event: usize, count: int) -> int
    decreases count,
{
    if count <= 0 {
        0
    } else {
        touching(others, event, count - 1) + if others[count - 1].events_tracked@.contains(event) {
            1int
        } else {
            0int
        }
    }
}

/// Whether more than one of the contexts touches the event.
pub open spec fn is_shared(others: Seq<EventGraphContext>, event: usize) -> bool {
    touching(others, event, others.len() as int) > 1
}

/// The number of edges of the given events.
pub open spec fn edge_count(
    schedule: EventSchedule,
    settings: &Settings,
    components: Seq<EventComponent>,
    events: Seq<usize>,
) -> int
    decreases events.len(),
{
    if events.len() == 0 {
        0
    } else {
        edge_count(schedule, settings, components, events.drop_last()) + writers_of(
            schedule,
            settings,
            components,
            events.last(),
        ).len() + readers_of(schedule, settings, components, events.last()).len()
    }
}

/// Those of the given events that are drawn in the graph of the schedule,
/// or those that are drawn among the events that schedules share. The
/// colours of the edges go on from event to event, whichever graph the
/// event is drawn in.
pub open spec fn events_text(
    schedule: EventSchedule,
    settings: &Settings,
    components: Seq<EventComponent>,
    others: Seq<EventGraphContext>,
    events: Seq<usize>,
    shared: bool,
    start: int,
) -> Seq<char>
    decreases events.len(),
{
    if events.len() == 0 {
        Seq::empty()
    } else {
        events_text(schedule, settings, components, others, events.drop_last(), shared, start)
            + if is_shared(others, events.last()) == shared {
            event_block(
                schedule,
                settings,
                components,
                events.last(),
                start + edge_count(schedule, settings, components, events.drop_last()),
            )
        } else {
            Seq::empty()
        }
    }
}

/// The nodes of those of the first `count` systems that touch an event.
pub open spec fn systems_text(
    schedule: EventSchedule,
    settings: &Settings,
    components: Seq<EventComponent>,
    count: int,
) -> Seq<char>
    decreases count,
{
    if count <= 0 {
        Seq::empty()
    } else {
        systems_text(schedule, settings, components, count - 1) + if events_of(
            schedule,
            settings,
            components,
            count - 1,
        ).len() > 0 {
            system_text(schedule.systems@[count - 1], settings)
        } else {
            Seq::empty()
        }
    }
}

/// Whether the events of the schedule can be drawn: the style has a colour
/// for the edges; the components of the events that its systems touch
/// have the names of events; and, where names are shortened, the names of
/// these events and of the systems that touch them can be.
#[verifier::opaque]
pub open spec fn is_drawable(
    schedule: EventSchedule,
    settings: &Settings,
    components: Seq<EventComponent>,
) -> bool {
    &&& settings.style.color_edge@.len() > 0
    &&& has_components(schedule, components)
    &&& forall|i: int|
        0 <= i < schedule.systems@.len() && events_of(schedule, settings, components, i).len() > 0
            && settings.prettify_system_names ==> is_pretty_printable(
            (#[trigger] schedule.systems@[i]).name@,
        )
    &&& forall|event: usize|
        touched_events(
            schedule,
            settings,
            components,
            schedule.systems@.len() as int,
        ).contains(event) ==> is_event_name(#[trigger] components[event as int].name@)
            && (settings.prettify_system_names ==> is_pretty_printable(
            event_name(components[event as int].name@),
        ))
}

proof fn lemma_events_among(components: Seq<EventComponent>, ids: Seq<usize>, event: usize)
    ensures
        events_among(components, ids).contains(event) <==> (ids.contains(event) && is_event(
            components,
            event,
        )),
    decreases ids.len(),
{
    if ids.len() > 0 {
        lemma_events_among(components, ids.drop_last(), event);
        assert(ids =~= ids.drop_last().push(ids.last()));
        lemma_push_membership(ids.drop_last(), ids.last());
        lemma_push_membership(events_among(components, ids.drop_last()), ids.last());
    }
}

proof fn lemma_with_new_ids(seen: Seq<usize>, found: Seq<usize>, event: usize)
    ensures
        with_new_ids(seen, found).contains(event) <==> (seen.contains(event) || found.contains(
            event,
        )),
    decreases found.len(),
{
    if found.len() > 0 {
        lemma_with_new_ids(seen, found.drop_last(), event);
        assert(found =~= found.drop_last().push(found.last()));
        lemma_push_membership(found.drop_last(), found.last());
        lemma_push_membership(with_new_ids(seen, found.drop_last()), found.last());
    }
}

/// The events that the systems touch are components that hold events.
pub proof fn lemma_touched_are_events(
    schedule: EventSchedule,
    settings: &Settings,
    components: Seq<EventComponent>,
    count: int,
    event: usize,
)
    requires
        touched_events(schedule, settings, components, count).contains(event),
    ensures
        is_event(components, event),
    decreases count,
{
    if count > 0 {
        let before = touched_events(schedule, settings, components, count - 1);
        let found = events_of(schedule, settings, components, count - 1);
        lemma_with_new_ids(before, found, event);
        if before.contains(event) {
            lemma_touched_are_events(schedule, settings, components, count - 1, event);
        } else {
            let reads = events_among(components, schedule.systems@[count - 1].reads@);
            let writes = events_among(components, schedule.systems@[count - 1].writes@);
            lemma_events_among(components, schedule.systems@[count - 1].reads@, event);
            lemma_events_among(components, schedule.systems@[count - 1].writes@, event);
            let k = choose|k: int| 0 <= k < found.len() && found[k] == event;
            if k < reads.len() {
                assert(reads[k] == event);
            } else {
                assert(writes[k - reads.len()] == event);
            }
        }
    }
}

proof fn lemma_occurrences(ids: Seq<usize>, event: usize, node: NodeId, k: int)
    requires
        0 <= k < occurrences(ids, event, node).len(),
    ensures
        occurrences(ids, event, node)[k] == node,
        ids.contains(event),
    decreases ids.len(),
{
    if ids.len() > 0 {
        let before = occurrences(ids.drop_last(), event, node);
        assert(ids =~= ids.drop_last().push(ids.last()));
        lemma_push_membership(ids.drop_last(), ids.last());
        if k < before.len() {
            lemma_occurrences(ids.drop_last(), event, node, k);
        }
    }
}

/// The systems that use an event are systems of the schedule.
pub proof fn lemma_users_are_systems(
    schedule: EventSchedule,
    settings: &Settings,
    components: Seq<EventComponent>,
    event: usize,
    writing: bool,
    count: int,
    k: int,
)
    requires
        0 <= k < users(schedule, settings, components, event, writing, count).len(),
        count <= schedule.systems@.len(),
    ensures
        users(schedule, settings, components, event, writing, count)[k] is System,
        users(schedule, settings, components, event, writing, count)[k].index()
            < schedule.systems@.len(),
    decreases count,
{
    if count > 0 {
        let before = users(schedule, settings, components, event, writing, count - 1);
        if k < before.len() {
            lemma_users_are_systems(schedule, settings, components, event, writing, count - 1, k);
        } else {
            let ids = accesses(schedule.systems@[count - 1], writing);
            lemma_occurrences(ids, event, NodeId::System((count - 1) as usize), k - before.len());
        }
    }
}

fn has_events(components: &Vec<EventComponent>, ids: &Vec<usize>) -> (r: bool)
    requires
        forall|k: int| 0 <= k < ids@.len() ==> (#[trigger] ids@[k]) < components@.len(),
    ensures
        r == (events_among(components@, ids@).len() > 0),
{
    for k in 0..ids.len()
        invariant
            forall|k: int| 0 <= k < ids@.len() ==> (#[trigger] ids@[k]) < components@.len(),
            events_among(components@, ids@.take(k as int)).len() == 0,
    {
        assert(ids@.take(k + 1).drop_last() =~= ids@.take(k as int));
        assert(ids@.take(k + 1).last() == ids@[k as int]);
        if starts_with(components[ids[k]].name.as_str(), "bevy_ecs::event::Events") {
            proof {
                lemma_events_grow(components@, ids@.take(k + 1), ids@);
            }
            return true;
        }
    }
    assert(ids@.take(ids@.len() as int) =~= ids@);
    false
}

proof fn lemma_events_grow(components: Seq<EventComponent>, start: Seq<usize>, ids: Seq<usize>)
    requires
        start.is_prefix_of(ids),
    ensures
        events_among(components, start).len() <= events_among(components, ids).len(),
    decreases ids.len(),
{
    if start.len() < ids.len() {
        assert(start.is_prefix_of(ids.drop_last())) by {
            assert(ids.drop_last().subrange(0, start.len() as int) =~= ids.subrange(
                0,
                start.len() as int,
            ));
        }
        lemma_events_grow(components, start, ids.drop_last());
    } else {
        assert(start =~= ids);
    }
}

impl EventGraphContext {
    /// The colour at place `counter` of the palette; the counter goes on to
    /// the next place and, after the last, to the first.
    pub fn next_edge_color<'a>(&self, settings: &'a Settings, counter: &mut usize) -> (color: &'a str)
        requires
            *old(counter) < settings.style.color_edge@.len(),
        ensures
            color@ == settings.style.color_edge@[*old(counter) as int]@,
            *final(counter) == (*old(counter) + 1) % settings.style.color_edge@.len() as int,
    {
        let at = *counter;
        let count = settings.style.color_edge.len();
        proof {
            assert(at + 1 < count ==> (at + 1) % (count as int) == at + 1) by (nonlinear_arith)
                requires
                    0 <= at < count,
            ;
            assert(at + 1 == count ==> (at + 1) % (count as int) == 0) by (nonlinear_arith)
                requires
                    0 <= at < count,
            ;
        }
        *counter = if at + 1 < count {
            at + 1
        } else {
            0
        };
        settings.style.color_edge[at].as_str()
    }

    /// Writes the node of a system.
    pub fn add_system(&self, dot: &mut DotGraph, system: &EventSystem, settings: &Settings)
        requires
            settings.prettify_system_names ==> is_pretty_printable(system.name@),
        ensures
            final(dot)@ == old(dot)@ + system_text(*system, settings),
    {
        let shown = display_name(system.name.as_str(), settings);
        let attrs = [
            ("label", shown.as_str()),
            ("tooltip", system.name.as_str()),
            ("shape", "box"),
            ("fillcolor", system.style.bg_color.as_str()),
            ("fontname", settings.style.fontname.as_str()),
            ("fontcolor", system.style.text_color.as_str()),
            ("color", system.style.border_color.as_str()),
            ("penwidth", system.style.border_width.as_str()),
        ];
        assert(attr_views(attrs@) =~= node_attributes(
            shown_name(system.name@, settings),
            system.name@,
            "box"@,
            system.style,
            settings,
        ));
        dot.add_node(system.name.as_str(), &attrs);
    }

    /// Writes the node of an event, and gives its identifier.
    pub fn add_event(
        &self,
        dot: &mut DotGraph,
        event: usize,
        component: &EventComponent,
        settings: &Settings,
    ) -> (id: String)
        requires
            is_event_name(component.name@),
            settings.prettify_system_names ==> is_pretty_printable(event_name(component.name@)),
        ensures
            id@ == event_id(event),
            final(dot)@ == old(dot)@ + event_text(*component, event, settings),
    {
        let full = chars_of(component.name.as_str());
        let mut open: usize = 0;
        proof {
            assert(full@.skip(0) =~= full@);
        }
        while open < full.len() && full[open] != '<'
            invariant
                open <= full.len(),
                first_place(full@, '<') == open + first_place(full@.skip(open as int), '<'),
            decreases full.len() - open,
        {
            assert(full@.skip(open as int)[0] == full@[open as int]);
            assert(full@.skip(open as int).skip(1) =~= full@.skip(open + 1));
            open += 1;
        }
        proof {
            if open < full.len() {
                assert(full@.skip(open as int)[0] == full@[open as int]);
            }
        }
        let mut inner: Vec<char> = Vec::new();
        let mut i = open + 1;
        let end = full.len() - 1;
        assert(full@.subrange(open + 1, open + 1) =~= Seq::<char>::empty());
        while i < end
            invariant
                open + 1 <= i <= end,
                end == full.len() - 1,
                inner@ == full@.subrange(open + 1, i as int),
            decreases end - i,
        {
            inner.push(full[i]);
            assert(full@.subrange(open + 1, i + 1) =~= full@.subrange(open + 1, i as int).push(
                full@[i as int],
            ));
            i += 1;
        }
        let name = string_of(&inner);
        let shown = display_name(name.as_str(), settings);
        let mut id = String::new();
        id.append("event_");
        push_decimal(&mut id, event);
        let attrs = [
            ("label", shown.as_str()),
            ("tooltip", name.as_str()),
            ("shape", "ellipse"),
            ("fillcolor", component.style.bg_color.as_str()),
            ("fontname", settings.style.fontname.as_str()),
            ("fontcolor", component.style.text_color.as_str()),
            ("color", component.style.border_color.as_str()),
            ("penwidth", component.style.border_width.as_str()),
        ];
        assert(attr_views(attrs@) =~= node_attributes(
            shown_name(event_name(component.name@), settings),
            event_name(component.name@),
            "ellipse"@,
            component.style,
            settings,
        ));
        dot.add_node(id.as_str(), &attrs);
        id
    }

    /// Writes the edges between an event and the systems that write it, or
    /// those that read it.
    fn add_user_edges(
        &self,
        dot: &mut DotGraph,
        schedule: &EventSchedule,
        settings: &Settings,
        event: usize,
        id: &str,
        systems: &Vec<NodeId>,
        writing: bool,
        counter: &mut usize,
        Ghost(start): Ghost<int>,
    )
        requires
            id@ == event_id(event),
            settings.style.color_edge@.len() > 0,
            start >= 0,
            *old(counter) == start % settings.style.color_edge@.len() as int,
            forall|k: int|
                0 <= k < systems@.len() ==> (#[trigger] systems@[k]).index()
                    < schedule.systems@.len(),
        ensures
            final(dot)@ == old(dot)@ + user_edges(
                *schedule,
                settings,
                event,
                systems@,
                writing,
                start,
            ),
            *final(counter) == (start + systems@.len()) % settings.style.color_edge@.len() as int,
    {
        let ghost first = dot@;
        let ghost palette = settings.style.color_edge@.len() as int;
        assert(dot@ =~= first + Seq::<char>::empty());
        for k in 0..systems.len()
            invariant
                id@ == event_id(event),
                palette == settings.style.color_edge@.len(),
                palette > 0,
                start >= 0,
                *counter == (start + k) % palette,
                forall|k: int|
                    0 <= k < systems@.len() ==> (#[trigger] systems@[k]).index()
                        < schedule.systems@.len(),
                dot@ == first + user_edges(
                    *schedule,
                    settings,
                    event,
                    systems@.take(k as int),
                    writing,
                    start,
                ),
        {
            assert(systems@.take(k + 1).drop_last() =~= systems@.take(k as int));
            assert(systems@.take(k + 1).last() == systems@[k as int]);
            let name = schedule.systems[systems[k].index()].name.as_str();
            let ghost at = *counter as int;
            proof {
                let sum = start + k;
                assert(0 <= sum % palette < palette) by (nonlinear_arith)
                    requires
                        palette > 0,
                        sum >= 0,
                ;
                assert((sum % palette + 1) % palette == (sum + 1) % palette) by (nonlinear_arith)
                    requires
                        palette > 0,
                        sum >= 0,
                ;
            }
            let color = self.next_edge_color(settings, counter);
            let attrs = [("color", color)];
            assert(attr_views(attrs@) =~= seq![("color"@, settings.style.color_edge@[at]@)]);
            if writing {
                dot.add_edge(name, id, &attrs);
            } else {
                dot.add_edge(id, name, &attrs);
            }
            assert(dot@ =~= first + user_edges(
                *schedule,
                settings,
                event,
                systems@.take(k + 1),
                writing,
                start,
            ));
        }
        assert(systems@.take(systems@.len() as int) =~= systems@);
    }
}

/// Whether more than one of the contexts touches the event.
fn touched_by_several(others: &Vec<EventGraphContext>, event: usize) -> (r: bool)
    ensures
        r == is_shared(others@, event),
{
    let mut count: usize = 0;
    for j in 0..others.len()
        invariant
            count <= j,
            count == touching(others@, event, j as int),
    {
        let events = &others[j].events_tracked;
        let mut found = false;
        let mut k: usize = 0;
        while k < events.len() && !found
            invariant
                k <= events@.len(),
                found ==> events@.contains(event),
                !found ==> forall|i: int| 0 <= i < k ==> events@[i] != event,
            decreases events@.len() - k,
        {
            if events[k] == event {
                found = true;
            }
            k += 1;
        }
        if found {
            count += 1;
        }
    }
    count > 1
}

/// Writes one event: its node, an edge from each system that writes it,
/// and an edge to each system that reads it.
fn add_event_block(
    context: &EventGraphContext,
    dot: &mut DotGraph,
    schedule: &EventSchedule,
    components: &Vec<EventComponent>,
    settings: &Settings,
    event: usize,
    counter: &mut usize,
    Ghost(start): Ghost<int>,
)
    requires
        settings.style.color_edge@.len() > 0,
        start >= 0,
        *old(counter) == start % settings.style.color_edge@.len() as int,
        event < components@.len(),
        is_event_name(components@[event as int].name@),
        settings.prettify_system_names ==> is_pretty_printable(
            event_name(components@[event as int].name@),
        ),
        id_bucket(context.event_readers@, event) == readers_of(
            *schedule,
            settings,
            components@,
            event,
        ),
        id_bucket(context.event_writers@, event) == writers_of(
            *schedule,
            settings,
            components@,
            event,
        ),
    ensures
        final(dot)@ == old(dot)@ + event_block(*schedule, settings, components@, event, start),
        *final(counter) == (start + writers_of(*schedule, settings, components@, event).len()
            + readers_of(*schedule, settings, components@, event).len())
            % settings.style.color_edge@.len() as int,
{
    let ghost first = dot@;
    let ghost writers = writers_of(*schedule, settings, components@, event);
    let ghost readers = readers_of(*schedule, settings, components@, event);
    let id = context.add_event(dot, event, &components[event], settings);
    proof {
        assert forall|k: int| 0 <= k < writers.len() implies (#[trigger] writers[k]).index()
            < schedule.systems@.len() by {
            lemma_users_are_systems(
                *schedule,
                settings,
                components@,
                event,
                true,
                schedule.systems@.len() as int,
                k,
            );
        }
        assert forall|k: int| 0 <= k < readers.len() implies (#[trigger] readers[k]).index()
            < schedule.systems@.len() by {
            lemma_users_are_systems(
                *schedule,
                settings,
                components@,
                event,
                false,
                schedule.systems@.len() as int,
                k,
            );
        }
    }
    let ghost mid = dot@;
    match context.event_writers.get(event) {
        Some(systems) => context.add_user_edges(
            dot,
            schedule,
            settings,
            event,
            id.as_str(),
            systems,
            true,
            counter,
            Ghost(start),
        ),
        None => {
            assert(dot@ =~= mid + Seq::<char>::empty());
        },
    }
    let ghost mid2 = dot@;
    match context.event_readers.get(event) {
        Some(systems) => context.add_user_edges(
            dot,
            schedule,
            settings,
            event,
            id.as_str(),
            systems,
            false,
            counter,
            Ghost(start + writers.len()),
        ),
        None => {
            assert(dot@ =~= mid2 + Seq::<char>::empty());
        },
    }
    assert(dot@ =~= first + event_block(*schedule, settings, components@, event, start));
}

/// Draws the events of one schedule: into `schedules_dotgraph` the systems
/// that touch an event and the events that this schedule alone touches,
/// into `events_dotgraph` the events that several of the schedules touch.
/// The colours of the edges are taken from the place `start` of the
/// palette on; the place after the last one used is handed back.
pub fn print_only_context(
    schedules: &Vec<EventSchedule>,
    events_dotgraph: &mut DotGraph,
    schedules_dotgraph: &mut DotGraph,
    ctx: &EventGraphContext,
    other_ctxs: &Vec<EventGraphContext>,
    components: &Vec<EventComponent>,
    settings: &Settings,
    start: usize,
) -> (next: usize)
    requires
        ctx.schedule < schedules@.len(),
        ctx.holds(schedules@, components@, settings),
        is_drawable(schedules@[ctx.schedule as int], settings, components@),
        start < settings.style.color_edge@.len(),
    ensures
        final(schedules_dotgraph)@ == old(schedules_dotgraph)@ + systems_text(
            schedules@[ctx.schedule as int],
            settings,
            components@,
            schedules@[ctx.schedule as int].systems@.len() as int,
        ) + events_text(
            schedules@[ctx.schedule as int],
            settings,
            components@,
            other_ctxs@,
            ctx.events_tracked@,
            false,
            start as int,
        ),
        final(events_dotgraph)@ == old(events_dotgraph)@ + events_text(
            schedules@[ctx.schedule as int],
            settings,
            components@,
            other_ctxs@,
            ctx.events_tracked@,
            true,
            start as int,
        ),
        next == (start + edge_count(
            schedules@[ctx.schedule as int],
            settings,
            components@,
            ctx.events_tracked@,
        )) % settings.style.color_edge@.len() as int,
{
    proof {
        reveal(EventGraphContext::holds);
        reveal(is_drawable);
    }
    let schedule = &schedules[ctx.schedule];
    let ghost first = schedules_dotgraph@;
    let ghost first_events = events_dotgraph@;
    let ghost palette = settings.style.color_edge@.len() as int;
    assert(schedules_dotgraph@ =~= first + Seq::<char>::empty());
    for i in 0..schedule.systems.len()
        invariant
            *schedule == schedules@[ctx.schedule as int],
            has_components(*schedule, components@),
            forall|i: int|
                0 <= i < schedule.systems@.len() && events_of(
                    *schedule,
                    settings,
                    components@,
                    i,
                ).len() > 0 && settings.prettify_system_names ==> is_pretty_printable(
                    (#[trigger] schedule.systems@[i]).name@,
                ),
            schedules_dotgraph@ == first + systems_text(
                *schedule,
                settings,
                components@,
                i as int,
            ),
    {
        let system = &schedule.systems[i];
        let asked = match &settings.include_system {
            Some(filter) => filter.includes(i, system.name.as_str()),
            None => true,
        };
        proof {
            assert forall|k: int| 0 <= k < system.reads@.len() implies (
            #[trigger] system.reads@[k]) < components@.len() by {
                assert(accesses(schedule.systems@[i as int], false)[k] < components@.len());
            }
            assert forall|k: int| 0 <= k < system.writes@.len() implies (
            #[trigger] system.writes@[k]) < components@.len() by {
                assert(accesses(schedule.systems@[i as int], true)[k] < components@.len());
            }
        }
        if asked && (has_events(components, &system.reads) || has_events(
            components,
            &system.writes,
        )) {
            ctx.add_system(schedules_dotgraph, system, settings);
        }
        assert(schedules_dotgraph@ =~= first + systems_text(
            *schedule,
            settings,
            components@,
            i + 1,
        ));
    }
    let ghost mid = schedules_dotgraph@;
    let mut counter = start;
    proof {
        assert(start as int % palette == start) by (nonlinear_arith)
            requires
                0 <= start < palette,
        ;
        assert(schedules_dotgraph@ =~= mid + Seq::<char>::empty());
        assert(events_dotgraph@ =~= first_events + Seq::<char>::empty());
    }
    for k in 0..ctx.events_tracked.len()
        invariant
            *schedule == schedules@[ctx.schedule as int],
            ctx.events_tracked@ == touched_events(
                *schedule,
                settings,
                components@,
                schedule.systems@.len() as int,
            ),
            forall|event: usize| #[trigger]
                id_bucket(ctx.event_readers@, event) == readers_of(
                    *schedule,
                    settings,
                    components@,
                    event,
                ),
            forall|event: usize| #[trigger]
                id_bucket(ctx.event_writers@, event) == writers_of(
                    *schedule,
                    settings,
                    components@,
                    event,
                ),
            forall|event: usize|
                ctx.events_tracked@.contains(event) ==> is_event_name(
                    #[trigger] components@[event as int].name@,
                ) && (settings.prettify_system_names ==> is_pretty_printable(
                    event_name(components@[event as int].name@),
                )),
            palette == settings.style.color_edge@.len(),
            palette > 0,
            counter == (start + edge_count(
                *schedule,
                settings,
                components@,
                ctx.events_tracked@.take(k as int),
            )) % palette,
            edge_count(*schedule, settings, components@, ctx.events_tracked@.take(k as int)) >= 0,
            schedules_dotgraph@ == mid + events_text(
                *schedule,
                settings,
                components@,
                other_ctxs@,
                ctx.events_tracked@.take(k as int),
                false,
                start as int,
            ),
            events_dotgraph@ == first_events + events_text(
                *schedule,
                settings,
                components@,
                other_ctxs@,
                ctx.events_tracked@.take(k as int),
                true,
                start as int,
            ),
    {
        let event = ctx.events_tracked[k];
        let ghost done = ctx.events_tracked@.take(k as int);
        let ghost used = start + edge_count(*schedule, settings, components@, done);
        proof {
            assert(ctx.events_tracked@.take(k + 1).drop_last() =~= done);
            assert(ctx.events_tracked@.take(k + 1).last() == event);
            assert(ctx.events_tracked@.contains(event));
            lemma_touched_are_events(
                *schedule,
                settings,
                components@,
                schedule.systems@.len() as int,
                event,
            );
            assert(is_event_name(components@[event as int].name@));
            assert(id_bucket(ctx.event_readers@, event) == readers_of(
                *schedule,
                settings,
                components@,
                event,
            ));
            assert(id_bucket(ctx.event_writers@, event) == writers_of(
                *schedule,
                settings,
                components@,
                event,
            ));
        }
        if touched_by_several(other_ctxs, event) {
            add_event_block(
                ctx,
                events_dotgraph,
                schedule,
                components,
                settings,
                event,
                &mut counter,
                Ghost(used),
            );
        } else {
            add_event_block(
                ctx,
                schedules_dotgraph,
                schedule,
                components,
                settings,
                event,
                &mut counter,
                Ghost(used),
            );
        }
        assert(schedules_dotgraph@ =~= mid + events_text(
            *schedule,
            settings,
            components@,
            other_ctxs@,
            ctx.events_tracked@.take(k + 1),
            false,
            start as int,
        ));
        assert(events_dotgraph@ =~= first_events + events_text(
            *schedule,
            settings,
            components@,
            other_ctxs@,
            ctx.events_tracked@.take(k + 1),
            true,
            start as int,
        ));
    }
    assert(ctx.events_tracked@.take(ctx.events_tracked@.len() as int) =~= ctx.events_tracked@);
    counter
}

/// The attributes of the cluster of a schedule.
pub open spec fn schedule_attributes(settings: &Settings, label: Seq<char>) -> Seq<
    (Seq<char>, Seq<char>),
> {
    seq![
        ("style"@, "rounded,filled"@),
        ("label"@, label),
        ("tooltip"@, label),
        ("fillcolor"@, settings.style.color_schedule@),
        ("fontcolor"@, settings.style.color_schedule_label@),
        ("color"@, settings.style.color_schedule_border@),
        ("penwidth"@, "2"@),
    ]
}

/// The first `count` contexts as they are drawn: of each the events that
/// it shares with others, and then the cluster of its schedule.
pub open spec fn contexts_text(
    schedules: Seq<EventSchedule>,
    contexts: Seq<EventGraphContext>,
    components: Seq<EventComponent>,
    settings: &Settings,
    count: int,
) -> Seq<char>
    decreases count,
{
    if count <= 0 {
        Seq::empty()
    } else {
        let context = contexts[count - 1];
        let schedule = schedules[context.schedule as int];
        contexts_text(schedules, contexts, components, settings, count - 1) + events_text(
            schedule,
            settings,
            components,
            contexts,
            context.events_tracked@,
            true,
            0,
        ) + nested_block(
            graph_header(
                "cluster"@ + schedule.label@,
                "subgraph"@,
                schedule_attributes(settings, schedule.label@),
            ) + systems_text(schedule, settings, components, schedule.systems@.len() as int)
                + events_text(
                schedule,
                settings,
                components,
                contexts,
                context.events_tracked@,
                false,
                0,
            ),
        )
    }
}

/// The opening of the drawing.
pub open spec fn document_header(settings: &Settings) -> Seq<char> {
    graph_header(
        Seq::empty(),
        "digraph"@,
        seq![
            ("compound"@, "true"@),
            ("splines"@, settings.style.edge_style.spec_as_dot()),
            ("rankdir"@, settings.style.schedule_rankdir.spec_as_dot()),
            ("bgcolor"@, settings.style.color_background@),
            ("fontname"@, settings.style.fontname@),
            ("nodesep"@, "0.15"@),
        ],
    ) + default_attributes("edge"@, seq![("penwidth"@, settings.style.penwidth_edge@)])
        + default_attributes("node"@, seq![("shape"@, "box"@), ("style"@, "filled"@)])
}

/// The drawing of the events of schedules.
pub open spec fn document(
    schedules: Seq<EventSchedule>,
    contexts: Seq<EventGraphContext>,
    components: Seq<EventComponent>,
    settings: &Settings,
) -> Seq<char> {
    document_header(settings) + contexts_text(
        schedules,
        contexts,
        components,
        settings,
        contexts.len() as int,
    ) + seq!['}', '\n']
}

/// Draws the events of schedules: each schedule as a cluster with the
/// systems that touch events and the events that it alone touches; the
/// events that several schedules touch outside the clusters.
pub fn print_context(
    schedules: &Vec<EventSchedule>,
    ctxs: &Vec<EventGraphContext>,
    components: &Vec<EventComponent>,
    settings: &Settings,
) -> (text: String)
    requires
        settings.style.color_edge@.len() > 0,
        forall|j: int|
            0 <= j < ctxs@.len() ==> (#[trigger] ctxs@[j]).schedule < schedules@.len()
                && ctxs@[j].holds(schedules@, components@, settings) && is_drawable(
                schedules@[ctxs@[j].schedule as int],
                settings,
                components@,
            ),
    ensures
        text@ == document(schedules@, ctxs@, components@, settings),
{
    let head = [
        ("compound", "true"),
        ("splines", settings.style.edge_style.as_dot()),
        ("rankdir", settings.style.schedule_rankdir.as_dot()),
        ("bgcolor", settings.style.color_background.as_str()),
        ("fontname", settings.style.fontname.as_str()),
        ("nodesep", "0.15"),
    ];
    assert(attr_views(head@) =~= seq![
        ("compound"@, "true"@),
        ("splines"@, settings.style.edge_style.spec_as_dot()),
        ("rankdir"@, settings.style.schedule_rankdir.spec_as_dot()),
        ("bgcolor"@, settings.style.color_background@),
        ("fontname"@, settings.style.fontname@),
        ("nodesep"@, "0.15"@),
    ]);
    let edges = [("penwidth", settings.style.penwidth_edge.as_str())];
    assert(attr_views(edges@) =~= seq![("penwidth"@, settings.style.penwidth_edge@)]);
    let nodes = [("shape", "box"), ("style", "filled")];
    assert(attr_views(nodes@) =~= seq![("shape"@, "box"@), ("style"@, "filled"@)]);
    let mut dot = DotGraph::new("", "digraph", &head).edge_attributes(&edges).node_attributes(
        &nodes,
    );
    proof {
        reveal_strlit("");
        assert(""@ =~= Seq::<char>::empty());
    }
    assert(dot@ =~= document_header(settings));
    let ghost first = dot@;
    assert(dot@ =~= first + Seq::<char>::empty());
    for j in 0..ctxs.len()
        invariant
            settings.style.color_edge@.len() > 0,
            forall|j: int|
                0 <= j < ctxs@.len() ==> (#[trigger] ctxs@[j]).schedule < schedules@.len()
                    && ctxs@[j].holds(schedules@, components@, settings) && is_drawable(
                    schedules@[ctxs@[j].schedule as int],
                    settings,
                    components@,
                ),
            dot@ == first + contexts_text(schedules@, ctxs@, components@, settings, j as int),
    {
        let ctx = &ctxs[j];
        assert(ctx.schedule < schedules@.len());
        let schedule = &schedules[ctx.schedule];
        let label = schedule.label.as_str();
        let attrs = [
            ("style", "rounded,filled"),
            ("label", label),
            ("tooltip", label),
            ("fillcolor", settings.style.color_schedule.as_str()),
            ("fontcolor", settings.style.color_schedule_label.as_str()),
            ("color", settings.style.color_schedule_border.as_str()),
            ("penwidth", "2"),
        ];
        assert(attr_views(attrs@) =~= schedule_attributes(settings, label@));
        let mut schedule_graph = DotGraph::subgraph(label, &attrs);
        let _ = print_only_context(
            schedules,
            &mut dot,
            &mut schedule_graph,
            ctx,
            ctxs,
            components,
            settings,
            0,
        );
        dot.add_sub_graph(schedule_graph);
        assert(dot@ =~= first + contexts_text(schedules@, ctxs@, components@, settings, j + 1));
    }
    let text = dot.finish();
    assert(text@ =~= document(schedules@, ctxs@, components@, settings));
    text
}

/// Whether the events of the schedule can be drawn.
pub fn check_drawable(
    schedule: &EventSchedule,
    context: &EventGraphContext,
    settings: &Settings,
    components: &Vec<EventComponent>,
) -> (ok: bool)
    requires
        context.events_tracked@ == touched_events(
            *schedule,
            settings,
            components@,
            schedule.systems@.len() as int,
        ),
        has_components(*schedule, components@),
    ensures
        ok == is_drawable(*schedule, settings, components@),
{
    proof {
        reveal(is_drawable);
    }
    if settings.style.color_edge.len() == 0 {
        return false;
    }
    for i in 0..schedule.systems.len()
        invariant
            has_components(*schedule, components@),
            forall|j: int|
                0 <= j < i && events_of(*schedule, settings, components@, j).len() > 0
                    && settings.prettify_system_names ==> is_pretty_printable(
                    (#[trigger] schedule.systems@[j]).name@,
                ),
    {
        let system = &schedule.systems[i];
        let asked = match &settings.include_system {
            Some(filter) => filter.includes(i, system.name.as_str()),
            None => true,
        };
        proof {
            assert forall|k: int| 0 <= k < system.reads@.len() implies (
            #[trigger] system.reads@[k]) < components@.len() by {
                assert(accesses(schedule.systems@[i as int], false)[k] < components@.len());
            }
            assert forall|k: int| 0 <= k < system.writes@.len() implies (
            #[trigger] system.writes@[k]) < components@.len() by {
                assert(accesses(schedule.systems@[i as int], true)[k] < components@.len());
            }
        }
        if asked && (has_events(components, &system.reads) || has_events(
            components,
            &system.writes,
        )) && settings.prettify_system_names && !check_pretty_printable(
            system.name.as_str(),
        ) {
            proof {
                reveal(is_drawable);
            }
            assert(events_of(*schedule, settings, components@, i as int).len() > 0);
            return false;
        }
    }
    let ghost touched = context.events_tracked@;
    for k in 0..context.events_tracked.len()
        invariant
            touched == context.events_tracked@,
            touched == touched_events(
                *schedule,
                settings,
                components@,
                schedule.systems@.len() as int,
            ),
            forall|j: int|
                0 <= j < k ==> is_event_name(components@[(#[trigger] touched[j]) as int].name@)
                    && (settings.prettify_system_names ==> is_pretty_printable(
                    event_name(components@[touched[j] as int].name@),
                )),
    {
        let event = context.events_tracked[k];
        proof {
            assert(touched.contains(event));
            lemma_touched_are_events(
                *schedule,
                settings,
                components@,
                schedule.systems@.len() as int,
                event,
            );
        }
        let full = chars_of(components[event].name.as_str());
        let open = find_first(&full, 0, full.len(), '<');
        assert(full@.subrange(0, full@.len() as int) =~= full@);
        if !(open < full.len() && open + 1 < full.len() && full[full.len() - 1] <= '\u{7f}') {
            proof {
                reveal(is_drawable);
            }
            assert(!is_event_name(components@[event as int].name@));
            return false;
        }
        if settings.prettify_system_names {
            let mut inner: Vec<char> = Vec::new();
            let mut i = open + 1;
            let end = full.len() - 1;
            assert(full@.subrange(open + 1, open + 1) =~= Seq::<char>::empty());
            while i < end
                invariant
                    open + 1 <= i <= end,
                    end == full.len() - 1,
                    inner@ == full@.subrange(open + 1, i as int),
                decreases end - i,
            {
                inner.push(full[i]);
                assert(full@.subrange(open + 1, i + 1) =~= full@.subrange(open + 1, i as int).push(
                    full@[i as int],
                ));
                i += 1;
            }
            if !check_pretty_printable(string_of(&inner).as_str()) {
                proof {
                    reveal(is_drawable);
                    assert(inner@ =~= event_name(components@[event as int].name@));
                }
                return false;
            }
        }
    }
    proof {
        reveal(is_drawable);
        assert forall|event: usize| touched.contains(event) implies is_event_name(
            #[trigger] components@[event as int].name@,
        ) && (settings.prettify_system_names ==> is_pretty_printable(
            event_name(components@[event as int].name@),
        )) by {
            let j = choose|j: int| 0 <= j < touched.len() && touched[j] == event;
            assert(is_event_name(components@[touched[j] as int].name@));
        }
    }
    true
}

} // verus!
