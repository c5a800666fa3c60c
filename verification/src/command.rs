//! Which search or scan a command line asks for.
use vstd::prelude::*;

verus! {

/// What to do.
#[derive(Debug, PartialEq, Eq)]
pub enum Command {
    /// Print the references to a name.
    FindReferences(String),
    /// Print the definitions of a name.
    FindDefinitions(String),
    /// Print completions of a name.
    Complete(String),
    /// Scan a directory and save its index.
    Create(String),
}

/// A command as plain values.
pub open spec fn command_view(c: Command) -> (int, Seq<char>) {
    match c {
        Command::FindReferences(s) => (0, s@),
        Command::FindDefinitions(s) => (1, s@),
        Command::Complete(s) => (2, s@),
        Command::Create(s) => (3, s@),
    }
}

/// The command that the options ask for: references first, then
/// definitions, then completion; without any of them, a scan of the given
/// path, or of the current directory.
pub open spec fn chosen_command(
    reference: Option<Seq<char>>,
    definition: Option<Seq<char>>,
    complete: Option<Seq<char>>,
    path: Option<Seq<char>>,
) -> (int, Seq<char>) {
    match reference {
        Some(s) => (0, s),
        None => match definition {
            Some(s) => (1, s),
            None => match complete {
                Some(s) => (2, s),
                None => match path {
                    Some(p) => (3, p),
                    None => (3, "."@),
                },
            },
        },
    }
}

pub open spec fn option_view(o: Option<String>) -> Option<Seq<char>> {
    match o {
        Some(s) => Some(s@),
        None => None,
    }
}

/// The command that the options ask for.
pub fn choose_command(
    reference: Option<String>,
    definition: Option<String>,
    complete: Option<String>,
    path: Option<String>,
) -> (c: Command)
    ensures
        command_view(c) == chosen_command(
            option_view(reference),
            option_view(definition),
            option_view(complete),
            option_view(path),
        ),
{
    match reference {
        Some(s) => Command::FindReferences(s),
        None => match definition {
            Some(s) => Command::FindDefinitions(s),
            None => match complete {
                Some(s) => Command::Complete(s),
                None => match path {
                    Some(p) => Command::Create(p),
                    None => Command::Create(".".to_owned()),
                },
            },
        },
    }
}

/// The command that the options of the SQLite front end ask for: as
/// `choose_command`, except that its scan takes its path from the
/// completion option, which is absent there, so it always scans the
/// current directory.
pub fn choose_store_command(reference: Option<String>, definition: Option<String>, complete: Option<String>) -> (c:
    Command)
    ensures
        command_view(c) == chosen_command(
            option_view(reference),
            option_view(definition),
            option_view(complete),
            None,
        ),
{
    choose_command(reference, definition, complete, None)
}

} // verus!
