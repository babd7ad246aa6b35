//! What the command line asks for, and which schedule a name means.

use crate::text::str_eq;
use crate::settings::texts;
use vstd::prelude::*;

verus! {

/// What `str::to_lowercase` of std makes of a string: its lowercase form.
pub uninterp spec fn lowercase(s: Seq<char>) -> Seq<char>;

/// `str::to_lowercase` of std. The result depends on the string alone.
#[verifier::external_body]
fn to_lowercase(s: &str) -> (lower: String)
    ensures
        lower@ == lowercase(s@),
{
    s.to_lowercase()
}

/// What is to be done.
pub enum ArgsCommand {
    /// Nothing was asked for.
    Nothing,
    /// The render graph is written out.
    DumpRender,
    /// The graph of a schedule is written out.
    DumpSchedule {
        /// The name of the schedule.
        schedule: String,
    },
}

/// What the command line asks for.
pub struct Args {
    pub command: ArgsCommand,
    /// Whether the program ends once the graph is written.
    pub exit: bool,
    /// The file that the graph is written to; the standard output if none.
    pub out_path: Option<String>,
}

/// One argument of the command line.
pub enum CliArg {
    /// A word that is no option.
    Value(String),
    /// An option of one letter.
    Short(char),
    /// An option with a name.
    Long(String),
}

/// The value that an argument asks for.
#[derive(Clone, Copy, Debug, PartialEq, Eq, Structural)]
pub enum Wanted {
    /// The name of the schedule to dump.
    Schedule,
    /// The path of the output file.
    Output,
}

/// What follows from one argument.
pub enum Step {
    /// The argument is taken in; the next argument is read.
    Go(Args),
    /// The argument needs a value, which is the next word of the command
    /// line.
    Fetch(Args, Wanted),
    /// The usage was asked for.
    Help,
    /// The argument is not known, or it is a second command.
    Unexpected,
}

/// What the command line asks for before any argument is read: nothing,
/// and to end afterwards.
pub fn no_arguments() -> (args: Args)
    ensures
        args.command is Nothing,
        args.exit,
        args.out_path is None,
{
    Args { command: ArgsCommand::Nothing, exit: true, out_path: None }
}

/// What follows from `arg` after the arguments in `args`.
pub open spec fn step_after(args: Args, arg: CliArg) -> Step {
    match arg {
        CliArg::Value(word) => if !(args.command is Nothing) {
            Step::Unexpected
        } else if word@ == "dump-schedule"@ {
            Step::Fetch(args, Wanted::Schedule)
        } else if word@ == "dump-render"@ {
            Step::Go(Args { command: ArgsCommand::DumpRender, exit: args.exit, out_path: args.out_path })
        } else {
            Step::Unexpected
        },
        CliArg::Short(letter) => if letter == 'o' {
            Step::Fetch(args, Wanted::Output)
        } else {
            Step::Unexpected
        },
        CliArg::Long(name) => if name@ == "output"@ {
            Step::Fetch(args, Wanted::Output)
        } else if name@ == "no-exit"@ {
            Step::Go(Args { command: args.command, exit: false, out_path: args.out_path })
        } else if name@ == "help"@ {
            Step::Help
        } else {
            Step::Unexpected
        },
    }
}

/// Takes in one argument: a command, where none was given before; the
/// option for the output file; the option not to end; the call for help.
pub fn parse_step(args: Args, arg: &CliArg) -> (step: Step)
    ensures
        step == step_after(args, *arg),
{
    match arg {
        CliArg::Value(word) => {
            match args.command {
                ArgsCommand::Nothing => {},
                _ => {
                    return Step::Unexpected;
                },
            }
            if str_eq(word.as_str(), "dump-schedule") {
                Step::Fetch(args, Wanted::Schedule)
            } else if str_eq(word.as_str(), "dump-render") {
                Step::Go(
                    Args { command: ArgsCommand::DumpRender, exit: args.exit, out_path: args.out_path },
                )
            } else {
                Step::Unexpected
            }
        },
        CliArg::Short(letter) => {
            if *letter == 'o' {
                Step::Fetch(args, Wanted::Output)
            } else {
                Step::Unexpected
            }
        },
        CliArg::Long(name) => {
            if str_eq(name.as_str(), "output") {
                Step::Fetch(args, Wanted::Output)
            } else if str_eq(name.as_str(), "no-exit") {
                Step::Go(Args { command: args.command, exit: false, out_path: args.out_path })
            } else if str_eq(name.as_str(), "help") {
                Step::Help
            } else {
                Step::Unexpected
            }
        },
    }
}

/// Takes in the value that an argument asked for.
pub fn take_value(args: Args, wanted: Wanted, value: String) -> (next: Args)
    ensures
        next == match wanted {
            Wanted::Schedule => Args {
                command: ArgsCommand::DumpSchedule { schedule: value },
                exit: args.exit,
                out_path: args.out_path,
            },
            Wanted::Output => Args { command: args.command, exit: args.exit, out_path: Some(value) },
        },
{
    match wanted {
        Wanted::Schedule => Args {
            command: ArgsCommand::DumpSchedule { schedule: value },
            exit: args.exit,
            out_path: args.out_path,
        },
        Wanted::Output => Args { command: args.command, exit: args.exit, out_path: Some(value) },
    }
}

/// Whether the program ends after what was asked for is done: not where
/// nothing was asked for, nor where it was asked to go on.
pub fn ends_afterwards(args: &Args) -> (r: bool)
    ensures
        r == (args.exit && !(args.command is Nothing)),
{
    match args.command {
        ArgsCommand::Nothing => false,
        _ => args.exit,
    }
}

/// Why no schedule was found for a name.
pub enum FindScheduleError {
    /// No schedule has the name: the name that was asked for, and the
    /// names of the schedules in lowercase.
    NoMatch(String, Vec<String>),
    /// More than one schedule has the name that was asked for.
    MoreThanOneMatch(String),
}

/// The lines that name the given schedules, each after a line break.
pub open spec fn listed(names: Seq<String>) -> Seq<char>
    decreases names.len(),
{
    if names.len() == 0 {
        Seq::empty()
    } else {
        listed(names.drop_last()) + seq!['\n'] + names.last()@
    }
}

impl FindScheduleError {
    /// What is said to the user.
    pub open spec fn spec_message(&self) -> Seq<char> {
        match *self {
            FindScheduleError::NoMatch(request, schedules) =>
                "No schedules matched the requested schedule '"@ + request@
                    + "'. The valid schedules are:\n"@ + listed(schedules@),
            FindScheduleError::MoreThanOneMatch(request) =>
                "More than one schedule matched requested schedule '"@ + request@ + "'"@,
        }
    }

    /// What is said to the user.
    pub fn message(&self) -> (text: String)
        ensures
            text@ == self.spec_message(),
    {
        let mut text = String::new();
        match self {
            FindScheduleError::NoMatch(request, schedules) => {
                text.append("No schedules matched the requested schedule '");
                text.append(request.as_str());
                text.append("'. The valid schedules are:\n");
                let ghost head = text@;
                assert(text@ =~= head + Seq::<char>::empty());
                for i in 0..schedules.len()
                    invariant
                        text@ == head + listed(schedules@.take(i as int)),
                {
                    assert(schedules@.take(i + 1).drop_last() =~= schedules@.take(i as int));
                    text.append("\n");
                    text.append(schedules[i].as_str());
                    proof {
                        reveal_strlit("\n");
                        assert("\n"@ =~= seq!['\n']);
                    }
                    assert(text@ =~= head + listed(schedules@.take(i + 1)));
                }
                assert(schedules@.take(schedules@.len() as int) =~= schedules@);
                assert(text@ =~= self.spec_message());
            },
            FindScheduleError::MoreThanOneMatch(request) => {
                text.append("More than one schedule matched requested schedule '");
                text.append(request.as_str());
                text.append("'");
                assert(text@ =~= self.spec_message());
            },
        }
        text
    }
}

/// The number of the first `count` names that are `wanted`.
pub open spec fn matches_before(names: Seq<Seq<char>>, wanted: Seq<char>, count: int) -> int
    decreases count,
{
    if count <= 0 {
        0
    } else {
        matches_before(names, wanted, count - 1) + if names[count - 1] == wanted {
            1int
        } else {
            0int
        }
    }
}

/// The place of the one schedule whose name is `wanted`. `names` are the
/// names of the schedules and `wanted` the name that was asked for, both in
/// lowercase; `request` is the name as it was asked for.
pub fn pick_schedule(names: &Vec<String>, wanted: &str, request: &str) -> (r: Result<
    usize,
    FindScheduleError,
>)
    ensures
        match r {
            Ok(place) => matches_before(texts(names@), wanted@, names@.len() as int) == 1 && place
                < names@.len() && names@[place as int]@ == wanted@,
            Err(FindScheduleError::NoMatch(asked, all)) => matches_before(
                texts(names@),
                wanted@,
                names@.len() as int,
            ) == 0 && asked@ == request@ && texts(all@) == texts(
                names@,
            ),
            Err(FindScheduleError::MoreThanOneMatch(asked)) => matches_before(
                texts(names@),
                wanted@,
                names@.len() as int,
            ) > 1 && asked@ == request@,
        },
{
    let mut found: Option<usize> = None;
    let mut i: usize = 0;
    while i < names.len()
        invariant
            i <= names@.len(),
            0 <= matches_before(texts(names@), wanted@, i as int) <= 1,
            found is Some <==> matches_before(texts(names@), wanted@, i as int) == 1,
            found is Some ==> found->0 < i && names@[found->0 as int]@ == wanted@,
        decreases names@.len() - i,
    {
        if str_eq(names[i].as_str(), wanted) {
            if found.is_some() {
                proof {
                    lemma_matches_grow(
                        texts(names@),
                        wanted@,
                        i + 1,
                        names@.len() as int,
                    );
                }
                return Err(FindScheduleError::MoreThanOneMatch(request.to_owned()));
            }
            found = Some(i);
        }
        i += 1;
    }
    match found {
        Some(place) => Ok(place),
        None => {
            let mut all: Vec<String> = Vec::new();
            for k in 0..names.len()
                invariant
                    all@.len() == k,
                    forall|j: int| 0 <= j < k ==> (#[trigger] all@[j])@ == names@[j]@,
            {
                all.push(names[k].clone());
            }
            assert(texts(all@) =~= texts(names@));
            Err(FindScheduleError::NoMatch(request.to_owned(), all))
        },
    }
}

proof fn lemma_matches_grow(names: Seq<Seq<char>>, wanted: Seq<char>, a: int, b: int)
    requires
        0 <= a <= b,
    ensures
        matches_before(names, wanted, a) <= matches_before(names, wanted, b),
    decreases b - a,
{
    if a < b {
        lemma_matches_grow(names, wanted, a, b - 1);
    }
}

/// The names in lowercase.
pub open spec fn lowered(names: Seq<String>) -> Seq<Seq<char>> {
    Seq::new(names.len(), |i: int| lowercase(names[i]@))
}

/// The place of the one schedule that, capitals and small letters taken
/// for the same, has the name `schedule_name`. `schedule_names` are the
/// names of all schedules.
pub fn find_schedule(schedule_names: &Vec<String>, schedule_name: &str) -> (r: Result<
    usize,
    FindScheduleError,
>)
    ensures
        match r {
            Ok(place) => matches_before(
                lowered(schedule_names@),
                lowercase(schedule_name@),
                schedule_names@.len() as int,
            ) == 1 && place < schedule_names@.len() && lowercase(schedule_names@[place as int]@)
                == lowercase(schedule_name@),
            Err(FindScheduleError::NoMatch(asked, all)) => matches_before(
                lowered(schedule_names@),
                lowercase(schedule_name@),
                schedule_names@.len() as int,
            ) == 0 && asked@ == schedule_name@ && texts(all@) == lowered(
                schedule_names@,
            ),
            Err(FindScheduleError::MoreThanOneMatch(asked)) => matches_before(
                lowered(schedule_names@),
                lowercase(schedule_name@),
                schedule_names@.len() as int,
            ) > 1 && asked@ == schedule_name@,
        },
{
    let wanted = to_lowercase(schedule_name);
    let mut names: Vec<String> = Vec::new();
    for i in 0..schedule_names.len()
        invariant
            names@.len() == i,
            forall|j: int| 0 <= j < i ==> (#[trigger] names@[j])@ == lowercase(schedule_names@[j]@),
    {
        names.push(to_lowercase(schedule_names[i].as_str()));
    }
    assert(texts(names@) =~= lowered(schedule_names@));
    pick_schedule(&names, wanted.as_str(), schedule_name)
}

} // verus!
