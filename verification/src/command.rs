//! The commands that the bot answers: what runs, and who may run it.

use vstd::prelude::*;

verus! {

/// How a command is guarded.
#[derive(Clone, Copy, PartialEq, Eq, Debug)]
pub enum CommandKind {
    /// Anyone may run it.
    Base,
    /// Only members that pass its check may run it.
    Protected,
    /// The help menu.
    Help,
}

/// The check that a protected command makes.
#[derive(Clone, Copy, PartialEq, Eq, Debug)]
pub enum Guard {
    /// No check.
    Anyone,
    /// The member has the moderator role.
    Moderator,
    /// The member has the working groups and teams role.
    WgAndTeams,
}

/// What a command does.
#[derive(Clone, Copy, PartialEq, Eq, Debug)]
pub enum Handler {
    TagDelete,
    TagCreate,
    TagUpdate,
    TagGet,
    TagList,
    TagHelp,
    CrateSearch,
    CrateHelp,
    DocSearch,
    DocHelp,
    PlayRun,
    PlayMissingCode,
    PlayHelp,
    EvalRun,
    EvalMissingCode,
    EvalHelp,
    SlowMode,
    SlowModeHelp,
    Kick,
    KickHelp,
    Ban,
    BanHelp,
    WelcomePost,
    WelcomeHelp,
    /// Does nothing.
    Nothing,
}

/// A command: its kind, its check and what it does.
#[derive(Clone, Copy, PartialEq, Eq, Debug)]
pub struct Command {
    pub kind: CommandKind,
    pub guard: Guard,
    pub handler: Handler,
}

impl Command {
    /// A command that anyone may run.
    pub fn new(handler: Handler) -> (r: Self)
        ensures
            r == (Command { kind: CommandKind::Base, guard: Guard::Anyone, handler }),
    {
        Command { kind: CommandKind::Base, guard: Guard::Anyone, handler }
    }

    /// A command that only members passing `auth` may run.
    pub fn new_with_auth(handler: Handler, auth: Guard) -> (r: Self)
        ensures
            r == (Command { kind: CommandKind::Protected, guard: auth, handler }),
    {
        Command { kind: CommandKind::Protected, guard: auth, handler }
    }

    /// The help menu: anyone may ask, and nothing more happens.
    pub fn help() -> (r: Self)
        ensures
            r == (Command { kind: CommandKind::Help, guard: Guard::Anyone, handler: Handler::Nothing }),
    {
        Command { kind: CommandKind::Help, guard: Guard::Anyone, handler: Handler::Nothing }
    }
}

/// Whether a command runs after its check: only when the check succeeded
/// and said yes (`Some(true)`); a failed check (`None`) or a no stops it.
pub fn authorized(check: Option<bool>) -> (r: bool)
    ensures
        r == (check == Some(true)),
{
    match check {
        Some(b) => b,
        None => false,
    }
}

/// Whether a command with the guard `guard` runs, given the outcome of its
/// role check (`None` when the check itself failed): a command that anyone
/// may run always runs; a guarded one only when its check said yes.
pub fn may_run(guard: Guard, check: Option<bool>) -> (r: bool)
    ensures
        r == (guard == Guard::Anyone || check == Some(true)),
{
    match guard {
        Guard::Anyone => true,
        _ => authorized(check),
    }
}

} // verus!
