//! The colours in which systems and events are drawn by default: by the
//! crate that they come from.

use crate::names::{is_pretty_printable, pretty_name, pretty_type_name};
use crate::system_style::{crate_color, crate_of, is_style_of, style_for, SystemStyle};
use vstd::prelude::*;

verus! {

/// The colours of an event's node as they are chosen: colours as six
/// hexadecimal digits; the colours of text and border may be left to be
/// worked out from the background.
pub struct ComponentInfoStyle {
    pub bg_color: String,
    pub text_color: Option<String>,
    pub border_color: Option<String>,
    pub border_width: String,
}

/// The style in which the node of the system `name` is drawn by default.
pub fn system_to_style(name: &str) -> (style: SystemStyle)
    requires
        is_pretty_printable(name@),
    ensures
        is_style_of(style, name@, pretty_type_name(name@)),
{
    let short = pretty_name(name);
    style_for(name, short.as_str())
}

/// Whether the style is the one of the event whose component has the name
/// `name` and the short name `short`.
pub open spec fn is_event_style_of(style: ComponentInfoStyle, name: Seq<char>, short: Seq<char>) -> bool {
    if short == "apply_system_buffers"@ {
        &&& style.bg_color@ == "E70000"@
        &&& style.text_color matches Some(color) && color@ == "ffffff"@
        &&& style.border_color matches Some(color) && color@ == "5A0000"@
        &&& style.border_width@ == "2"@
    } else {
        &&& style.bg_color@ == crate_color(crate_of(name))
        &&& style.text_color is None
        &&& style.border_color is None
        &&& style.border_width@ == "1"@
    }
}

/// The style in which the node of an event is drawn by default, by the
/// name of its component.
pub fn event_to_style(name: &str) -> (style: ComponentInfoStyle)
    requires
        is_pretty_printable(name@),
    ensures
        is_event_style_of(style, name@, pretty_type_name(name@)),
{
    let short = pretty_name(name);
    let style = style_for(name, short.as_str());
    ComponentInfoStyle {
        bg_color: style.bg_color,
        text_color: style.text_color,
        border_color: style.border_color,
        border_width: style.border_width,
    }
}

} // verus!
