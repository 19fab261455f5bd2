//! Client command dispatch: a fixed table from command name to handler, with
//! the checks made before a handler runs.
use vstd::prelude::*;
use crate::parse::{is_word_upper, upper};
use crate::text::copy_bytes;

verus! {

/// The commands this server handles.
#[derive(Clone, Copy, Debug, PartialEq, Eq, Structural)]
pub enum CommandHandler {
    Nick,
    User,
    Join,
    Part,
    Privmsg,
    Quit,
    Chathistory,
}

/// Where a handler may run: before registration completes, after it, or
/// both.
#[derive(Clone, Copy, Debug, PartialEq, Eq, Structural)]
pub enum Stage {
    PreClient,
    Registered,
    Any,
}

/// One row of the dispatch table.
#[derive(Debug)]
pub struct CommandRegistration {
    /// The command name, in upper case.
    pub command: Vec<u8>,
    pub handler: CommandHandler,
    pub min_parameters: usize,
    pub stage: Stage,
}

/// Why a command was refused before its handler ran.
#[derive(Clone, Copy, Debug, PartialEq, Eq, Structural)]
pub enum CommandError {
    UnknownCommand,
    NotEnoughParameters,
    NotRegistered,
    AlreadyRegistered,
}

/// The dispatch table.
#[derive(Debug)]
pub struct CommandDispatcher {
    pub handlers: Vec<CommandRegistration>,
}

/// The index of the first row named `name` (in upper case), or the length.
pub open spec fn row_of(rows: Seq<CommandRegistration>, name: Seq<u8>, i: int) -> int
    decreases rows.len() - i,
{
    if i >= rows.len() {
        rows.len() as int
    } else if rows[i].command@ == upper(name) {
        i
    } else {
        row_of(rows, name, i + 1)
    }
}

/// What dispatching command `name` with `n_args` arguments gives, from a
/// connection that has (`registered`) or has not completed registration.
pub open spec fn dispatch_outcome(rows: Seq<CommandRegistration>, name: Seq<u8>, n_args: nat, registered: bool) -> Result<CommandHandler, CommandError> {
    let i = row_of(rows, name, 0);
    if i >= rows.len() {
        Err(CommandError::UnknownCommand)
    } else if n_args < rows[i].min_parameters {
        Err(CommandError::NotEnoughParameters)
    } else if !registered && rows[i].stage == Stage::Registered {
        Err(CommandError::NotRegistered)
    } else if registered && rows[i].stage == Stage::PreClient {
        Err(CommandError::AlreadyRegistered)
    } else {
        Ok(rows[i].handler)
    }
}

fn row(name: &[u8], handler: CommandHandler, min_parameters: usize, stage: Stage) -> (r: CommandRegistration)
    ensures
        r.command@ == name@,
        r.handler == handler,
        r.min_parameters == min_parameters,
        r.stage == stage,
{
    CommandRegistration { command: copy_bytes(name), handler, min_parameters, stage }
}

impl CommandDispatcher {
    /// The table of every command this server handles.
    pub fn new() -> (r: CommandDispatcher)
        ensures
            r.handlers@.len() == 7,
            forall|i: int| 0 <= i < r.handlers@.len() ==> upper((#[trigger] r.handlers@[i]).command@) == r.handlers@[i].command@,
    {
        let nick: [u8; 4] = [78, 73, 67, 75];
        let user: [u8; 4] = [85, 83, 69, 82];
        let join: [u8; 4] = [74, 79, 73, 78];
        let part: [u8; 4] = [80, 65, 82, 84];
        let privmsg: [u8; 7] = [80, 82, 73, 86, 77, 83, 71];
        let quit: [u8; 4] = [81, 85, 73, 84];
        let chathistory: [u8; 11] = [67, 72, 65, 84, 72, 73, 83, 84, 79, 82, 89];
        let handlers = vec![
            row(nick.as_slice(), CommandHandler::Nick, 1, Stage::Any),
            row(user.as_slice(), CommandHandler::User, 4, Stage::PreClient),
            row(join.as_slice(), CommandHandler::Join, 1, Stage::Registered),
            row(part.as_slice(), CommandHandler::Part, 1, Stage::Registered),
            row(privmsg.as_slice(), CommandHandler::Privmsg, 2, Stage::Registered),
            row(quit.as_slice(), CommandHandler::Quit, 0, Stage::Any),
            row(chathistory.as_slice(), CommandHandler::Chathistory, 4, Stage::Registered),
        ];
        proof {
            assert forall|i: int| 0 <= i < handlers@.len() implies upper((#[trigger] handlers@[i]).command@)
                == handlers@[i].command@ by {
                assert(upper(handlers@[i].command@) =~= handlers@[i].command@);
            }
        }
        CommandDispatcher { handlers }
    }

    /// The row for command `cmd`, matched in any case.
    pub fn resolve_command(&self, cmd: &[u8]) -> (r: Option<&CommandRegistration>)
        ensures
            row_of(self.handlers@, cmd@, 0) < self.handlers@.len() ==> r == Some(
                &self.handlers@[row_of(self.handlers@, cmd@, 0)],
            ),
            row_of(self.handlers@, cmd@, 0) >= self.handlers@.len() ==> r is None,
    {
        let mut i: usize = 0;
        while i < self.handlers.len()
            invariant
                i <= self.handlers@.len(),
                row_of(self.handlers@, cmd@, 0) == row_of(self.handlers@, cmd@, i as int),
            decreases self.handlers@.len() - i,
        {
            if is_word_upper(cmd, self.handlers[i].command.as_slice()) {
                return Some(&self.handlers[i]);
            }
            i = i + 1;
        }
        None
    }

    /// Picks the handler for a command and checks that it may run: enough
    /// arguments, and the right side of registration.
    pub fn dispatch(&self, cmd: &[u8], n_args: usize, registered: bool) -> (r: Result<CommandHandler, CommandError>)
        ensures
            r == dispatch_outcome(self.handlers@, cmd@, n_args as nat, registered),
    {
        match self.resolve_command(cmd) {
            None => Err(CommandError::UnknownCommand),
            Some(reg) => {
                if n_args < reg.min_parameters {
                    Err(CommandError::NotEnoughParameters)
                } else if !registered && reg.stage == Stage::Registered {
                    Err(CommandError::NotRegistered)
                } else if registered && reg.stage == Stage::PreClient {
                    Err(CommandError::AlreadyRegistered)
                } else {
                    Ok(reg.handler)
                }
            },
        }
    }
}

} // verus!
