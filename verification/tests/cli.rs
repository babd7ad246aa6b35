use bevy_mod_debugdump::cli::{
    ends_afterwards, find_schedule, no_arguments, parse_step, pick_schedule, take_value, Args,
    ArgsCommand, CliArg, FindScheduleError, Step, Wanted,
};
use bevy_mod_debugdump::system_style::{color_of_crate, crate_name, style_for, system_to_style};

fn names(list: &[&str]) -> Vec<String> {
    list.iter().map(|s| s.to_string()).collect()
}

fn go(step: Step) -> Args {
    match step {
        Step::Go(args) => args,
        _ => panic!("the argument is taken in"),
    }
}

#[test]
fn schedule_is_found_whatever_the_case() {
    let all = names(&["First", "PreUpdate", "Update", "PostUpdate"]);
    assert!(matches!(find_schedule(&all, "update"), Ok(2)));
    assert!(matches!(find_schedule(&all, "POSTUPDATE"), Ok(3)));
    assert!(matches!(find_schedule(&all, "First"), Ok(0)));
}

#[test]
fn unknown_schedule_lists_the_valid_ones() {
    let all = names(&["First", "Update"]);
    match find_schedule(&all, "Last") {
        Err(FindScheduleError::NoMatch(asked, valid)) => {
            assert_eq!(asked, "Last");
            assert_eq!(valid, vec!["first", "update"]);
        }
        _ => panic!("no schedule has this name"),
    }
    let error = find_schedule(&all, "Last").err().unwrap();
    assert_eq!(
        error.message(),
        "No schedules matched the requested schedule 'Last'. The valid schedules are:\n\nfirst\nupdate"
    );
    assert!(matches!(find_schedule(&vec![], "x"), Err(FindScheduleError::NoMatch(_, _))));
}

#[test]
fn schedule_name_that_two_schedules_have() {
    let all = names(&["Update", "First", "UPDATE"]);
    match find_schedule(&all, "Update") {
        Err(FindScheduleError::MoreThanOneMatch(asked)) => {
            assert_eq!(asked, "Update");
        }
        _ => panic!("two schedules have this name"),
    }
    assert_eq!(
        find_schedule(&all, "Update").err().unwrap().message(),
        "More than one schedule matched requested schedule 'Update'"
    );
    assert!(matches!(pick_schedule(&names(&["a", "b", "a"]), "b", "B"), Ok(1)));
    assert!(matches!(
        pick_schedule(&names(&["a", "b", "a"]), "a", "A"),
        Err(FindScheduleError::MoreThanOneMatch(_))
    ));
}

#[test]
fn arguments_step_by_step() {
    let args = no_arguments();
    assert!(matches!(args.command, ArgsCommand::Nothing) && args.exit && args.out_path.is_none());
    assert!(!ends_afterwards(&args));

    let step = parse_step(args, &CliArg::Value("dump-schedule".to_string()));
    let args = match step {
        Step::Fetch(args, Wanted::Schedule) => take_value(args, Wanted::Schedule, "Update".to_string()),
        _ => panic!("the name of the schedule is asked for"),
    };
    assert!(matches!(&args.command, ArgsCommand::DumpSchedule { schedule } if schedule == "Update"));
    assert!(ends_afterwards(&args));

    let args = match parse_step(args, &CliArg::Short('o')) {
        Step::Fetch(args, Wanted::Output) => take_value(args, Wanted::Output, "out.dot".to_string()),
        _ => panic!("the path is asked for"),
    };
    assert_eq!(args.out_path.as_deref(), Some("out.dot"));
    let args = match parse_step(args, &CliArg::Long("output".to_string())) {
        Step::Fetch(args, Wanted::Output) => take_value(args, Wanted::Output, "other.dot".to_string()),
        _ => panic!("the path is asked for"),
    };
    assert_eq!(args.out_path.as_deref(), Some("other.dot"));

    let args = go(parse_step(args, &CliArg::Long("no-exit".to_string())));
    assert!(!args.exit && !ends_afterwards(&args));
    assert!(matches!(&args.command, ArgsCommand::DumpSchedule { schedule } if schedule == "Update"));

    assert!(matches!(parse_step(args, &CliArg::Value("dump-render".to_string())), Step::Unexpected));
}

#[test]
fn arguments_that_are_not_known() {
    assert!(matches!(parse_step(no_arguments(), &CliArg::Value("dump".to_string())), Step::Unexpected));
    assert!(matches!(parse_step(no_arguments(), &CliArg::Short('x')), Step::Unexpected));
    assert!(matches!(parse_step(no_arguments(), &CliArg::Long("exit".to_string())), Step::Unexpected));
    assert!(matches!(parse_step(no_arguments(), &CliArg::Long("help".to_string())), Step::Help));
    let args = go(parse_step(no_arguments(), &CliArg::Value("dump-render".to_string())));
    assert!(matches!(args.command, ArgsCommand::DumpRender) && ends_afterwards(&args));
}

#[test]
fn crate_of_a_system() {
    assert_eq!(crate_name("bevy_transform::systems::propagate"), "bevy_transform");
    assert_eq!(crate_name("game"), "game");
    assert_eq!(crate_name(""), "");
    assert_eq!(crate_name("::x"), "");
    assert_eq!(crate_name("bevy_ecs::event::Events<bevy_window::Resized>::update_system"), "bevy_window");
    assert_eq!(
        crate_name("bevy_ecs::event::Events<bevy_ecs::event::Events<my::E>::update_system>::update_system"),
        "my"
    );
    assert_eq!(crate_name("bevy_ecs::event::Events<"), "");
    assert_eq!(crate_name("a:b::c"), "a:b");
}

#[test]
fn colours_by_crate() {
    assert_eq!(color_of_crate("bevy_transform"), "FFE7B9");
    assert_eq!(color_of_crate("bevy_pbr"), "ABD5FC");
    assert_eq!(color_of_crate("bevy_ecs"), "B0D34A");
    assert_eq!(color_of_crate("game"), "eff1f3");
    assert_eq!(color_of_crate(""), "eff1f3");

    let style = system_to_style("bevy_render::view::prepare_view_targets");
    assert_eq!(style.bg_color, "70B9FC");
    assert_eq!(style.text_color, None);
    assert_eq!(style.border_color, None);
    assert_eq!(style.border_width, "1");

    let style = system_to_style("bevy_ecs::event::Events<bevy_ui::Focus>::update_system");
    assert_eq!(style.bg_color, "FFB1E5");

    let style = system_to_style("bevy_ecs::schedule::apply_system_buffers");
    assert_eq!(style.bg_color, "E70000");
    assert_eq!(style.text_color.as_deref(), Some("ffffff"));
    assert_eq!(style.border_color.as_deref(), Some("5A0000"));
    assert_eq!(style.border_width, "2");

    assert_eq!(style_for("bevy_audio::play", "play").bg_color, "98F1D1");
    assert_eq!(style_for("bevy_audio::play", "apply_system_buffers").bg_color, "E70000");
}
