use bevy_mod_debugdump::d2::{escape_string, NodeRef};
use bevy_mod_debugdump::names::{
    check_closed_generics, default_system_set_name, full_system_name, pretty_system_name,
    short_name,
};
use bevy_mod_debugdump::settings::{
    AmbiguityFilter, EdgeStyle, RankDir, Settings, Style, SystemFilter,
};
use bevy_mod_debugdump::text::{chars_of, push_decimal, starts_with, str_eq, string_of};

#[test]
fn short_name_keeps_the_last_segment() {
    assert_eq!(short_name("a::b::c"), "c");
    assert_eq!(short_name("plain"), "plain");
    assert_eq!(short_name(""), "");
    assert_eq!(short_name("a::"), "");
    assert_eq!(short_name("a:::b"), "b");
    assert_eq!(short_name("a:b"), "a:b");
}

#[test]
fn short_name_shortens_generics() {
    assert_eq!(short_name("a::b::c<d>"), "c<d>");
    assert_eq!(short_name("a::b::C<x::y::D>"), "C<D>");
    assert_eq!(short_name("a::B<x::C<y::D>>"), "B<C<D>>");
    assert_eq!(short_name("a::B<x::C>::run"), "B<C>::run");
    assert_eq!(short_name("a<>"), "a<>");
    assert_eq!(short_name("m::A<x::B, y::C>"), "A<C>");
}

#[test]
fn generics_that_are_not_closed_are_told_apart() {
    assert!(check_closed_generics("a::b"));
    assert!(check_closed_generics("a<b>"));
    assert!(check_closed_generics("a<b<c>>"));
    assert!(check_closed_generics("a>b"));
    assert!(!check_closed_generics("a<b"));
    assert!(!check_closed_generics("a>b<c"));
    assert!(!check_closed_generics("a<b<c>"));
}

#[test]
fn pretty_system_name_drops_module_paths() {
    assert_eq!(pretty_system_name("bevy_prelude::make_fun_game"), "make_fun_game");
    assert_eq!(
        pretty_system_name("bevy_render::camera::extract_cameras<bevy_render::camera::Camera3d>"),
        "extract_cameras<Camera3d>"
    );
    assert_eq!(pretty_system_name("m::Ty::f::{{closure}}"), "Ty::f::{{closure}}");
    assert_eq!(full_system_name("a::b::c"), "a::b::c");
    assert_eq!(default_system_set_name("Update"), "Update");
}

#[test]
fn text_helpers() {
    assert_eq!(chars_of("añ→"), vec!['a', 'ñ', '→']);
    assert_eq!(string_of(&vec!['a', 'ñ', '→']), "añ→");
    assert!(str_eq("añ", "añ") && !str_eq("a", "ab") && !str_eq("ab", "ac") && str_eq("", ""));
    assert!(starts_with("bevy_ecs::x", "bevy_ecs"));
    assert!(starts_with("x", ""));
    assert!(!starts_with("bevy", "bevy_ecs"));
    assert!(!starts_with("bevy_app::x", "bevy_ecs"));
    let mut out = String::from("n=");
    push_decimal(&mut out, 0);
    push_decimal(&mut out, 7);
    push_decimal(&mut out, 1230);
    push_decimal(&mut out, usize::MAX);
    assert_eq!(out, format!("n=071230{}", usize::MAX));
}

#[test]
fn words_of_the_dot_language() {
    assert_eq!(RankDir::TopDown.as_dot(), "TD");
    assert_eq!(RankDir::LeftRight.as_dot(), "LR");
    assert_eq!(RankDir::default(), RankDir::LeftRight);
    assert_eq!(EdgeStyle::NoEdges.as_dot(), "none");
    assert_eq!(EdgeStyle::Line.as_dot(), "line");
    assert_eq!(EdgeStyle::Polyline.as_dot(), "polyline");
    assert_eq!(EdgeStyle::Curved.as_dot(), "curved");
    assert_eq!(EdgeStyle::Ortho.as_dot(), "ortho");
    assert_eq!(EdgeStyle::Spline.as_dot(), "spline");
    assert_eq!(EdgeStyle::default(), EdgeStyle::Spline);
}

#[test]
fn styles() {
    let light = Style::light();
    assert_eq!(light.color_background, "white");
    assert_eq!(light.color_set, "#00000008");
    assert_eq!(light.color_set_border, "#00000040");
    assert_eq!(light.color_set_label, "#000000");
    assert_eq!(light.ambiguity_bgcolor, "#d3d3d3");
    let discord = Style::dark_discord();
    assert_eq!(discord.color_background, "#35393f");
    assert_eq!(discord.ambiguity_bgcolor, "#c5daeb");
    let github = Style::dark_github();
    assert_eq!(github.color_background, "#0d1117");
    assert_eq!(github.color_set, "#ffffff44");
    assert_eq!(github.color_set_border, "#ffffff50");
    assert_eq!(github.color_set_label, "#ffffff");
    assert_eq!(github.ambiguity_bgcolor, "#c6e6ff");
    for style in [light, discord, github, Style::default()] {
        assert_eq!(style.fontname, "Helvetica");
        assert_eq!(style.penwidth_edge, "2");
        assert_eq!(style.multiple_set_edge_color, "blue");
        assert_eq!(style.ambiguity_color, "#c93526");
        assert_eq!(style.schedule_rankdir, RankDir::LeftRight);
        assert_eq!(style.edge_style, EdgeStyle::Spline);
        assert_eq!(
            style.color_edge,
            vec![
                "#eede00", "#881877", "#00b0cc", "#aa3a55", "#44d488", "#0090cc", "#ee9e44",
                "#663699", "#3363bb", "#22c2bb", "#99d955"
            ]
        );
    }
    assert_eq!(Style::default().color_background, "#0d1117");
}

#[test]
fn default_settings() {
    let settings = Settings::default();
    assert!(settings.include_system.is_none());
    assert!(settings.include_ambiguity.is_none());
    assert!(!settings.collapse_single_system_sets);
    assert!(settings.remove_transitive_edges);
    assert!(!settings.ambiguity_enable);
    assert!(!settings.ambiguity_enable_on_world);
}

#[test]
fn filters() {
    let crates = SystemFilter::InCrates(vec!["bevy_ecs".to_string(), "game".to_string()]);
    assert!(crates.includes(0, "game::run"));
    assert!(crates.includes(9, "bevy_ecs::event::update"));
    assert!(!crates.includes(0, "bevy_app::run"));
    let chosen = SystemFilter::Chosen(vec![true, false]);
    assert!(chosen.includes(0, "x") && !chosen.includes(1, "x") && !chosen.includes(2, "x"));

    let hidden = AmbiguityFilter::WithoutSingleOn(vec![3, 4]);
    assert!(!hidden.includes(0, &vec![Some(4)]));
    assert!(hidden.includes(0, &vec![Some(5)]));
    assert!(hidden.includes(0, &vec![None]));
    assert!(hidden.includes(0, &vec![Some(3), Some(4)]));
    assert!(hidden.includes(0, &vec![]));
    let chosen = AmbiguityFilter::Chosen(vec![false, true]);
    assert!(!chosen.includes(0, &vec![]) && chosen.includes(1, &vec![]) && chosen.includes(2, &vec![]));

    let settings = Settings::default().filter_in_crate("game").without_single_ambiguities_on(8);
    match settings.include_system {
        Some(SystemFilter::InCrates(crates)) => assert_eq!(crates, vec!["game"]),
        _ => panic!("the filter is set"),
    }
    match settings.include_ambiguity {
        Some(AmbiguityFilter::WithoutSingleOn(types)) => assert_eq!(types, vec![8]),
        _ => panic!("the filter is set"),
    }
    assert!(settings.remove_transitive_edges);
}

#[test]
fn node_references_of_nested_graphs() {
    assert_eq!(escape_string("RAW:x"), "\"RAW:x\"");
    assert_eq!(escape_string("a\"b"), "\"a\\\"b\"");
    let node = NodeRef(vec!["n".to_string()]);
    assert_eq!(node.to_string(), "\"n\"");
    let node = node.prepend("inner \"set\"".to_string()).prepend("outer".to_string());
    assert_eq!(node.0, vec!["outer", "inner \"set\"", "n"]);
    assert_eq!(node.to_string(), "\"outer\".\"inner \\\"set\\\"\".\"n\"");
    assert_eq!(NodeRef(vec![]).to_string(), "");
}
