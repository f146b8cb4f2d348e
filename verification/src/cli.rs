//! The command line: which mode to run, and the `off` subcommand that edits the
//! personal days off.
use vstd::prelude::*;

use crate::date::{parsed_ymd_day_number, Date};
use crate::off_days::OffEntry;
use crate::text::str_eq;

verus! {

/// What the program does.
#[derive(Clone, Copy, Debug, PartialEq, Eq, Structural)]
pub enum RunMode {
    /// Edit or list the personal days off (`presence off ...`).
    Off,
    /// Send the report now, then exit (`--now`).
    Now,
    /// Print the report without sending it (`--dry-run`).
    DryRun,
    /// Wait for each Friday and send the report then.
    Daemon,
}

/// Whether one of `args` is `flag`.
pub open spec fn has_flag(args: Seq<Seq<char>>, flag: Seq<char>) -> bool {
    exists|i: int| 0 <= i < args.len() && #[trigger] args[i] == flag
}

/// The mode chosen by the whole command line (the program's name first).
pub open spec fn mode_of(args: Seq<Seq<char>>) -> RunMode {
    if args.len() > 1 && args[1] == "off"@ {
        RunMode::Off
    } else if has_flag(args, "--now"@) {
        RunMode::Now
    } else if has_flag(args, "--dry-run"@) {
        RunMode::DryRun
    } else {
        RunMode::Daemon
    }
}

/// The texts of a list of strings.
pub open spec fn texts(args: Seq<String>) -> Seq<Seq<char>> {
    args.map_values(|a: String| a@)
}

fn any_is(args: &[String], flag: &str) -> (r: bool)
    ensures
        r == has_flag(texts(args@), flag@),
{
    let mut i: usize = 0;
    while i < args.len()
        invariant
            i <= args@.len(),
            forall|j: int| 0 <= j < i ==> (#[trigger] args@[j])@ != flag@,
        decreases args@.len() - i,
    {
        if str_eq(args[i].as_str(), flag) {
            assert(texts(args@)[i as int] == flag@);
            return true;
        }
        i = i + 1;
    }
    assert forall|j: int| 0 <= j < texts(args@).len() implies #[trigger] texts(args@)[j] != flag@ by {
        assert(texts(args@)[j] == args@[j]@);
    }
    false
}

/// The mode chosen by the command line `args` (the program's name first).
pub fn run_mode(args: &[String]) -> (r: RunMode)
    ensures
        r == mode_of(texts(args@)),
{
    if args.len() > 1 && str_eq(args[1].as_str(), "off") {
        return RunMode::Off;
    }
    if any_is(args, "--now") {
        RunMode::Now
    } else if any_is(args, "--dry-run") {
        RunMode::DryRun
    } else {
        RunMode::Daemon
    }
}

/// A request of the `off` subcommand.
#[derive(Clone, Copy, Debug, PartialEq, Eq, Structural)]
pub enum OffCommand {
    /// Add a single day or an inclusive range.
    Add(OffEntry),
    /// Remove the entry that starts on this day.
    Remove(Date),
    /// List the entries.
    List,
}

/// Why the arguments of the `off` subcommand are refused.
#[derive(Clone, Debug, PartialEq, Eq)]
pub enum OffCommandError {
    MissingSubcommand,
    MissingStartDate,
    MissingDate,
    /// This argument is not a `YYYY-MM-DD` date.
    InvalidDate(String),
    EndBeforeStart { start: Date, end: Date },
    UnknownSubcommand(String),
}

/// What an `OffCommand` asks, with dates as day numbers.
pub enum CommandModel {
    Add(int, int),
    Remove(int),
    List,
}

/// What an `OffCommandError` says, with dates as day numbers.
pub enum CommandErrorModel {
    MissingSubcommand,
    MissingStartDate,
    MissingDate,
    InvalidDate(Seq<char>),
    EndBeforeStart(int, int),
    UnknownSubcommand(Seq<char>),
}

impl View for OffCommand {
    type V = CommandModel;

    open spec fn view(&self) -> CommandModel {
        match self {
            OffCommand::Add(e) => CommandModel::Add(e.start@, e.end@),
            OffCommand::Remove(d) => CommandModel::Remove(d@),
            OffCommand::List => CommandModel::List,
        }
    }
}

impl View for OffCommandError {
    type V = CommandErrorModel;

    open spec fn view(&self) -> CommandErrorModel {
        match self {
            OffCommandError::MissingSubcommand => CommandErrorModel::MissingSubcommand,
            OffCommandError::MissingStartDate => CommandErrorModel::MissingStartDate,
            OffCommandError::MissingDate => CommandErrorModel::MissingDate,
            OffCommandError::InvalidDate(text) => CommandErrorModel::InvalidDate(text@),
            OffCommandError::EndBeforeStart { start, end } => CommandErrorModel::EndBeforeStart(
                start@,
                end@,
            ),
            OffCommandError::UnknownSubcommand(text) => CommandErrorModel::UnknownSubcommand(
                text@,
            ),
        }
    }
}

impl OffCommandError {
    /// The usage text goes with this error: the subcommand is missing or unknown.
    pub fn shows_usage(&self) -> (r: bool)
        ensures
            r == (self@ is MissingSubcommand || self@ is UnknownSubcommand),
    {
        match self {
            OffCommandError::MissingSubcommand => true,
            OffCommandError::UnknownSubcommand(_) => true,
            _ => false,
        }
    }
}

/// The outcome of the `add` subcommand for its arguments `args` (`args[0]` is "add").
pub open spec fn add_outcome(args: Seq<Seq<char>>) -> Result<CommandModel, CommandErrorModel> {
    if args.len() < 2 {
        Err(CommandErrorModel::MissingStartDate)
    } else {
        match parsed_ymd_day_number(args[1]) {
            None => Err(CommandErrorModel::InvalidDate(args[1])),
            Some(start) => {
                let end = if args.len() < 3 {
                    Some(start)
                } else {
                    parsed_ymd_day_number(args[2])
                };
                match end {
                    None => Err(CommandErrorModel::InvalidDate(args[2])),
                    Some(end) => if end < start {
                        Err(CommandErrorModel::EndBeforeStart(start, end))
                    } else {
                        Ok(CommandModel::Add(start, end))
                    },
                }
            },
        }
    }
}

/// The outcome of the `off` subcommand for its arguments `args`.
pub open spec fn off_outcome(args: Seq<Seq<char>>) -> Result<CommandModel, CommandErrorModel> {
    if args.len() == 0 {
        Err(CommandErrorModel::MissingSubcommand)
    } else if args[0] == "add"@ {
        add_outcome(args)
    } else if args[0] == "remove"@ || args[0] == "rm"@ {
        if args.len() < 2 {
            Err(CommandErrorModel::MissingDate)
        } else {
            match parsed_ymd_day_number(args[1]) {
                None => Err(CommandErrorModel::InvalidDate(args[1])),
                Some(day) => Ok(CommandModel::Remove(day)),
            }
        }
    } else if args[0] == "list"@ || args[0] == "ls"@ {
        Ok(CommandModel::List)
    } else {
        Err(CommandErrorModel::UnknownSubcommand(args[0]))
    }
}

/// Reads a `YYYY-MM-DD` argument.
fn parse_date(text: &String) -> (r: Result<Date, OffCommandError>)
    ensures
        match parsed_ymd_day_number(text@) {
            None => r matches Err(e) && e@ == CommandErrorModel::InvalidDate(text@),
            Some(n) => r matches Ok(d) && d@ == n,
        },
{
    match Date::parse_ymd(text.as_str()) {
        Some(date) => Ok(date),
        None => Err(OffCommandError::InvalidDate(text.clone())),
    }
}

/// Reads the arguments that follow `off` on the command line.
pub fn parse_off_command(args: &[String]) -> (r: Result<OffCommand, OffCommandError>)
    ensures
        match r {
            Ok(command) => off_outcome(texts(args@)) == Ok::<CommandModel, CommandErrorModel>(
                command@,
            ),
            Err(error) => off_outcome(texts(args@)) == Err::<CommandModel, CommandErrorModel>(
                error@,
            ),
        },
{
    let ghost t = texts(args@);
    if args.len() == 0 {
        return Err(OffCommandError::MissingSubcommand);
    }
    assert(t[0] == args@[0]@);
    let sub = args[0].as_str();
    if str_eq(sub, "add") {
        if args.len() < 2 {
            return Err(OffCommandError::MissingStartDate);
        }
        assert(t[1] == args@[1]@);
        let start = parse_date(&args[1])?;
        let end = if args.len() < 3 {
            start
        } else {
            assert(t[2] == args@[2]@);
            parse_date(&args[2])?
        };
        match OffEntry::range(start, end) {
            Ok(entry) => Ok(OffCommand::Add(entry)),
            Err(_) => Err(OffCommandError::EndBeforeStart { start, end }),
        }
    } else if str_eq(sub, "remove") || str_eq(sub, "rm") {
        if args.len() < 2 {
            return Err(OffCommandError::MissingDate);
        }
        assert(t[1] == args@[1]@);
        let day = parse_date(&args[1])?;
        Ok(OffCommand::Remove(day))
    } else if str_eq(sub, "list") || str_eq(sub, "ls") {
        Ok(OffCommand::List)
    } else {
        Err(OffCommandError::UnknownSubcommand(args[0].clone()))
    }
}

} // verus!
