//! The colours in which the node of a system is drawn by default: by the
//! crate that the system comes from.

use crate::names::{display_short_name, short_type_name};
use crate::text::{chars_of, str_eq, string_of};
use crate::dot::attr_views;
use vstd::prelude::*;

verus! {

/// The colours of a system's node as they are chosen: colours as six
/// hexadecimal digits; the colours of text and border may be left to be
/// worked out from the background.
pub struct SystemStyle {
    pub bg_color: String,
    pub text_color: Option<String>,
    pub border_color: Option<String>,
    pub border_width: String,
}

/// `s` without `prefix` at its start, as often as it stands there.
pub open spec fn without_prefixes(s: Seq<char>, prefix: Seq<char>) -> Seq<char>
    decreases s.len(),
{
    if prefix.len() > 0 && prefix.is_prefix_of(s) {
        without_prefixes(s.skip(prefix.len() as int), prefix)
    } else {
        s
    }
}

/// `s` without `suffix` at its end, as often as it stands there.
pub open spec fn without_suffixes(s: Seq<char>, suffix: Seq<char>) -> Seq<char>
    decreases s.len(),
{
    if suffix.len() > 0 && suffix.is_suffix_of(s) {
        without_suffixes(s.take(s.len() - suffix.len()), suffix)
    } else {
        s
    }
}

/// The place of the first `::` in `s`, or the length of `s` if it has none.
pub open spec fn first_separator(s: Seq<char>) -> int
    decreases s.len(),
{
    if s.len() < 2 {
        s.len() as int
    } else if s[0] == ':' && s[1] == ':' {
        0
    } else {
        1 + first_separator(s.skip(1))
    }
}

/// The name of the crate of a system: what stands before the first `::` of
/// its name, once the wrapping of an event's update system is taken off.
pub open spec fn crate_of(name: Seq<char>) -> Seq<char> {
    let inner = without_suffixes(
        without_prefixes(name, "bevy_ecs::event::Events<"@),
        ">::update_system"@,
    );
    inner.take(first_separator(inner))
}

/// The names of the crates that have a colour of their own, each with its
/// colour.
pub open spec fn crate_colors() -> Seq<(Seq<char>, Seq<char>)> {
    seq![
        ("bevy_transform"@, "FFE7B9"@),
        ("bevy_animation"@, "FFBDB9"@),
        ("bevy_asset"@, "D1CBC5"@),
        ("bevy_scene"@, "BACFCB"@),
        ("bevy_time"@, "C7DDBD"@),
        ("bevy_core"@, "3E583C"@),
        ("bevy_app"@, "639D18"@),
        ("bevy_ecs"@, "B0D34A"@),
        ("bevy_hierarchy"@, "E4FBA3"@),
        ("bevy_audio"@, "98F1D1"@),
        ("bevy_winit"@, "664F72"@),
        ("bevy_a11y"@, "9163A6"@),
        ("bevy_window"@, "BB85D4"@),
        ("bevy_text"@, "E9BBFF"@),
        ("bevy_gilrs"@, "973977"@),
        ("bevy_input"@, "D36AAF"@),
        ("bevy_ui"@, "FFB1E5"@),
        ("bevy_render"@, "70B9FC"@),
        ("bevy_pbr"@, "ABD5FC"@),
    ]
}

/// The colour of the first entry of `table` from place `from` on whose
/// name is `name`; the colour of all other crates where there is none.
pub open spec fn color_in(table: Seq<(Seq<char>, Seq<char>)>, name: Seq<char>, from: int) -> Seq<
    char,
>
    decreases table.len() - from,
{
    if from < 0 || from >= table.len() {
        "eff1f3"@
    } else if table[from].0 == name {
        table[from].1
    } else {
        color_in(table, name, from + 1)
    }
}

/// The background of the node of a system of the crate `name`.
pub open spec fn crate_color(name: Seq<char>) -> Seq<char> {
    color_in(crate_colors(), name, 0)
}

/// Whether the style is the one of the system `name`, whose short name is
/// `short`: the system that applies the buffers in warning red with a wide
/// border; every other system in the colour of its crate, text and border
/// left open.
pub open spec fn is_style_of(style: SystemStyle, name: Seq<char>, short: Seq<char>) -> bool {
    if short == "apply_system_buffers"@ {
        &&& style.bg_color@ == "E70000"@
        &&& style.text_color matches Some(color) && color@ == "ffffff"@
        &&& style.border_color matches Some(color) && color@ == "5A0000"@
        &&& style.border_width@ == "2"@
    } else {
        &&& style.bg_color@ == crate_color(crate_of(name))
        &&& style.text_color is None
        &&& style.border_color is None
        &&& style.border_width@ == "1"@
    }
}

fn trim_start(v: &Vec<char>, prefix: &Vec<char>) -> (from: usize)
    ensures
        from <= v.len(),
        v@.skip(from as int) == without_prefixes(v@, prefix@),
{
    let mut from: usize = 0;
    assert(v@.skip(0) =~= v@);
    if prefix.len() == 0 {
        return 0;
    }
    loop
        invariant
            from <= v.len(),
            prefix.len() > 0,
            without_prefixes(v@, prefix@) == without_prefixes(v@.skip(from as int), prefix@),
        decreases v.len() - from,
    {
        let ghost rest = v@.skip(from as int);
        if v.len() - from < prefix.len() {
            return from;
        }
        let mut k: usize = 0;
        while k < prefix.len()
            invariant
                k <= prefix.len(),
                prefix.len() > 0,
                from + prefix.len() <= v.len(),
                rest == v@.skip(from as int),
                without_prefixes(v@, prefix@) == without_prefixes(rest, prefix@),
                forall|j: int| 0 <= j < k ==> rest[j] == prefix@[j],
            decreases prefix.len() - k,
        {
            if v[from + k] != prefix[k] {
                assert(rest.subrange(0, prefix@.len() as int)[k as int] != prefix@[k as int]);
                return from;
            }
            k += 1;
        }
        assert(rest.subrange(0, prefix@.len() as int) =~= prefix@);
        assert(rest.skip(prefix@.len() as int) =~= v@.skip(from + prefix@.len()));
        from += prefix.len();
    }
}

fn trim_end(v: &Vec<char>, from: usize, suffix: &Vec<char>) -> (to: usize)
    requires
        from <= v.len(),
    ensures
        from <= to <= v.len(),
        v@.subrange(from as int, to as int) == without_suffixes(v@.skip(from as int), suffix@),
{
    let mut to: usize = v.len();
    assert(v@.subrange(from as int, v@.len() as int) =~= v@.skip(from as int));
    if suffix.len() == 0 {
        return to;
    }
    loop
        invariant
            from <= to <= v.len(),
            suffix.len() > 0,
            without_suffixes(v@.skip(from as int), suffix@) == without_suffixes(
                v@.subrange(from as int, to as int),
                suffix@,
            ),
        decreases to - from,
    {
        let ghost rest = v@.subrange(from as int, to as int);
        if to - from < suffix.len() {
            return to;
        }
        let start = to - suffix.len();
        let mut k: usize = 0;
        while k < suffix.len()
            invariant
                k <= suffix.len(),
                suffix.len() > 0,
                from <= start,
                start + suffix.len() == to,
                to <= v.len(),
                rest == v@.subrange(from as int, to as int),
                without_suffixes(v@.skip(from as int), suffix@) == without_suffixes(rest, suffix@),
                forall|j: int| 0 <= j < k ==> rest[start - from + j] == suffix@[j],
            decreases suffix.len() - k,
        {
            if v[start + k] != suffix[k] {
                assert(rest.subrange(rest.len() - suffix@.len(), rest.len() as int)[k as int]
                    != suffix@[k as int]);
                return to;
            }
            k += 1;
        }
        assert(rest.subrange(rest.len() - suffix@.len(), rest.len() as int) =~= suffix@);
        assert(rest.take(rest.len() - suffix@.len()) =~= v@.subrange(from as int, start as int));
        to = start;
    }
}

fn find_separator(v: &Vec<char>, from: usize, to: usize) -> (at: usize)
    requires
        from <= to <= v.len(),
    ensures
        from <= at <= to,
        at == from + first_separator(v@.subrange(from as int, to as int)),
{
    let mut at = from;
    while to - at >= 2
        invariant
            from <= at <= to <= v.len(),
            first_separator(v@.subrange(from as int, to as int)) == (at - from) + first_separator(
                v@.subrange(at as int, to as int),
            ),
        decreases to - at,
    {
        let ghost rest = v@.subrange(at as int, to as int);
        assert(rest[0] == v@[at as int] && rest[1] == v@[at + 1]);
        if v[at] == ':' && v[at + 1] == ':' {
            return at;
        }
        assert(rest.skip(1) =~= v@.subrange(at + 1, to as int));
        at += 1;
    }
    let ghost rest = v@.subrange(at as int, to as int);
    assert(first_separator(rest) == rest.len());
    to
}

/// The name of the crate of a system.
pub fn crate_name(name: &str) -> (found: String)
    ensures
        found@ == crate_of(name@),
{
    let v = chars_of(name);
    let prefix = chars_of("bevy_ecs::event::Events<");
    let suffix = chars_of(">::update_system");
    let from = trim_start(&v, &prefix);
    let to = trim_end(&v, from, &suffix);
    let end = find_separator(&v, from, to);
    let mut out: Vec<char> = Vec::new();
    let mut i = from;
    assert(v@.subrange(from as int, from as int) =~= Seq::<char>::empty());
    while i < end
        invariant
            from <= i <= end <= v.len(),
            out@ == v@.subrange(from as int, i as int),
        decreases end - i,
    {
        out.push(v[i]);
        assert(v@.subrange(from as int, i + 1) =~= v@.subrange(from as int, i as int).push(
            v@[i as int],
        ));
        i += 1;
    }
    assert(v@.subrange(from as int, to as int).take(end - from) =~= v@.subrange(
        from as int,
        end as int,
    ));
    string_of(&out)
}

/// The background of the node of a system of the crate `name`.
pub fn color_of_crate(name: &str) -> (color: &'static str)
    ensures
        color@ == crate_color(name@),
{
    let table = [
        ("bevy_transform", "FFE7B9"),
        ("bevy_animation", "FFBDB9"),
        ("bevy_asset", "D1CBC5"),
        ("bevy_scene", "BACFCB"),
        ("bevy_time", "C7DDBD"),
        ("bevy_core", "3E583C"),
        ("bevy_app", "639D18"),
        ("bevy_ecs", "B0D34A"),
        ("bevy_hierarchy", "E4FBA3"),
        ("bevy_audio", "98F1D1"),
        ("bevy_winit", "664F72"),
        ("bevy_a11y", "9163A6"),
        ("bevy_window", "BB85D4"),
        ("bevy_text", "E9BBFF"),
        ("bevy_gilrs", "973977"),
        ("bevy_input", "D36AAF"),
        ("bevy_ui", "FFB1E5"),
        ("bevy_render", "70B9FC"),
        ("bevy_pbr", "ABD5FC"),
    ];
    assert(attr_views(table@) =~= crate_colors());
    let mut i: usize = 0;
    while i < table.len()
        invariant
            i <= table@.len(),
            attr_views(table@) == crate_colors(),
            crate_color(name@) == color_in(crate_colors(), name@, i as int),
        decreases table@.len() - i,
    {
        let (key, color) = table[i];
        assert(crate_colors()[i as int] == (key@, color@));
        if str_eq(key, name) {
            return color;
        }
        i += 1;
    }
    "eff1f3"
}

/// The style in which the node of the system `name` is drawn by default.
pub fn system_to_style(name: &str) -> (style: SystemStyle)
    ensures
        is_style_of(style, name@, short_type_name(name@)),
{
    let short = display_short_name(name);
    style_for(name, short.as_str())
}

/// The style of the system `name`, whose short name is `short`.
pub fn style_for(name: &str, short: &str) -> (style: SystemStyle)
    ensures
        is_style_of(style, name@, short@),
{
    if str_eq(short, "apply_system_buffers") {
        SystemStyle {
            bg_color: "E70000".to_owned(),
            text_color: Some("ffffff".to_owned()),
            border_color: Some("5A0000".to_owned()),
            border_width: "2".to_owned(),
        }
    } else {
        let found = crate_name(name);
        SystemStyle {
            bg_color: color_of_crate(found.as_str()).to_owned(),
            text_color: None,
            border_color: None,
            border_width: "1".to_owned(),
        }
    }
}

} // verus!
