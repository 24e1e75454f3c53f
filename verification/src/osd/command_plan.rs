//! How a command to a daemon is carried out.

use crate::maps::{Fsid, PG};
use crate::msgr::message::{Message, MessageView};
use crate::osd::client::{
    check_options, command_failure, map_command_message_error, CommandResult, CommandView, Error,
    UnknownCause, MAX_ATTEMPTS, TRY_AGAIN,
};
use crate::osd::command::{
    command_decoding, command_encoding, decode_command_reply, encode_command_request,
    CommandRequest,
};
use vstd::prelude::*;

verus! {

/// Who a command is for: a daemon, or whoever is the primary of a placement group.
#[derive(Clone, Copy, Debug, PartialEq, Eq, Structural)]
pub enum CommandTarget {
    Osd(i32),
    Group(PG),
}

/// Where a map sends a command: its epoch and the daemon.
#[derive(Clone, Copy, Debug, PartialEq, Eq, Structural)]
pub struct CommandRoute {
    pub epoch: u32,
    pub primary: i32,
}

/// What a map says of a target: whether it has the pool of a placement group, the primary of the
/// group if it has one, and whether the daemon that the command goes to has addresses.
#[derive(Clone, Copy, Debug, PartialEq, Eq, Structural)]
pub struct MapFacts {
    pub epoch: u32,
    pub pool_exists: bool,
    pub primary: Option<i32>,
    pub has_addresses: bool,
}

pub open spec fn command_route(target: CommandTarget, facts: MapFacts) -> Result<
    CommandRoute,
    Error,
> {
    match target {
        CommandTarget::Osd(id) => if facts.has_addresses {
            Ok(CommandRoute { epoch: facts.epoch, primary: id })
        } else {
            Err(Error::NoPrimary)
        },
        CommandTarget::Group(pg) => if pg.pool > i64::MAX || !facts.pool_exists {
            Err(Error::WireErrno((-2int) as i32))
        } else {
            match facts.primary {
                Some(primary) => if primary < 0 || !facts.has_addresses {
                    Err(Error::NoPrimary)
                } else {
                    Ok(CommandRoute { epoch: facts.epoch, primary })
                },
                None => Err(Error::NoPrimary),
            }
        },
    }
}

/// Where a map sends a command.
pub fn resolve_command_route(target: CommandTarget, facts: MapFacts) -> (r: Result<
    CommandRoute,
    Error,
>)
    ensures
        r == command_route(target, facts),
{
    match target {
        CommandTarget::Osd(id) => {
            if facts.has_addresses {
                Ok(CommandRoute { epoch: facts.epoch, primary: id })
            } else {
                Err(Error::NoPrimary)
            }
        },
        CommandTarget::Group(pg) => {
            if pg.pool > i64::MAX as u64 || !facts.pool_exists {
                return Err(Error::WireErrno(-2));
            }
            match facts.primary {
                Some(primary) => {
                    if primary < 0 || !facts.has_addresses {
                        Err(Error::NoPrimary)
                    } else {
                        Ok(CommandRoute { epoch: facts.epoch, primary })
                    }
                },
                None => Err(Error::NoPrimary),
            }
        },
    }
}

/// A command that is being carried out, under one transaction in all attempts.
#[derive(Debug)]
pub struct CommandPlan {
    pub target: CommandTarget,
    pub fsid: Fsid,
    pub command: Vec<String>,
    pub input: Vec<u8>,
    pub transaction_id: u64,
    pub attempt: usize,
    pub route: CommandRoute,
}

/// What to do next: start another attempt, wait for a map after an epoch, or end. A command that
/// the daemon refused has a result as well.
#[derive(Debug)]
pub enum CommandNext {
    Again,
    Refresh { epoch: u32 },
    Done(Result<(CommandResult, Option<Error>), Error>),
}

pub enum CommandNextView {
    Again,
    Refresh { epoch: u32 },
    Done(Result<(CommandView, Option<Error>), Error>),
}

impl View for CommandNext {
    type V = CommandNextView;

    open spec fn view(&self) -> CommandNextView {
        match self {
            CommandNext::Again => CommandNextView::Again,
            CommandNext::Refresh { epoch } => CommandNextView::Refresh { epoch: *epoch },
            CommandNext::Done(Ok((result, error))) => CommandNextView::Done(
                Ok((result@, *error)),
            ),
            CommandNext::Done(Err(error)) => CommandNextView::Done(Err(*error)),
        }
    }
}

/// What to do next, and whether the session is not to be used any more.
#[derive(Debug)]
pub struct CommandOutcome {
    pub next: CommandNext,
    pub invalidate: bool,
}

pub struct CommandOutcomeView {
    pub next: CommandNextView,
    pub invalidate: bool,
}

impl View for CommandOutcome {
    type V = CommandOutcomeView;

    open spec fn view(&self) -> CommandOutcomeView {
        CommandOutcomeView { next: self.next@, invalidate: self.invalidate }
    }
}

/// How an attempt ends before it starts, if it does.
pub open spec fn attempt_failure(
    attempt: int,
    closed: bool,
    canceled: bool,
    expired: bool,
    route: Option<Result<CommandRoute, Error>>,
) -> Option<Error> {
    if attempt >= MAX_ATTEMPTS {
        Some(Error::RecoveryExhausted)
    } else if closed {
        Some(Error::Closed)
    } else if canceled {
        Some(Error::Cancelled)
    } else if expired {
        Some(Error::Timeout)
    } else {
        match route {
            None => Some(Error::NotConnected),
            Some(Err(error)) => Some(error),
            Some(Ok(_)) => None,
        }
    }
}

pub open spec fn command_end(error: Error, invalidate: bool) -> CommandOutcomeView {
    CommandOutcomeView { next: CommandNextView::Done(Err(error)), invalidate }
}

/// What to do after a command was not answered. One whose outcome is not known is not sent again.
pub open spec fn command_unanswered(epoch: u32, error: Error) -> CommandOutcomeView {
    if error == Error::QueueSaturated || error is OutcomeUnknown {
        command_end(error, false)
    } else if error == Error::Timeout || error == Error::Cancelled {
        command_end(error, true)
    } else {
        CommandOutcomeView { next: CommandNextView::Refresh { epoch }, invalidate: true }
    }
}

/// What to do after a reply to a command.
pub open spec fn command_answered(
    epoch: u32,
    transaction_id: u64,
    m: MessageView,
    max_bytes: u32,
) -> CommandOutcomeView {
    match command_decoding(m, max_bytes) {
        Err(_) => command_end(Error::MalformedReply, true),
        Ok(reply) => if reply.transaction_id != transaction_id {
            command_end(Error::MalformedReply, true)
        } else if reply.result == TRY_AGAIN {
            CommandOutcomeView { next: CommandNextView::Refresh { epoch }, invalidate: false }
        } else {
            CommandOutcomeView {
                next: CommandNextView::Done(
                    Ok(
                        (
                            CommandView {
                                result: reply.result,
                                status: reply.status,
                                output: reply.output,
                            },
                            if reply.result < 0 {
                                Some(Error::WireErrno(reply.result))
                            } else {
                                None
                            },
                        ),
                    ),
                ),
                invalidate: false,
            }
        },
    }
}

fn command_ending(error: Error, invalidate: bool) -> (r: CommandOutcome)
    ensures
        r@ == command_end(error, invalidate),
{
    CommandOutcome { next: CommandNext::Done(Err(error)), invalidate }
}

/// Whether a command may be sent at all: the client is open, and there is one.
pub fn check_command(closed: bool, words: usize) -> (r: Result<(), Error>)
    ensures
        r == if closed {
            Err::<(), Error>(Error::Closed)
        } else if words == 0 {
            Err(Error::LimitExceeded)
        } else {
            Ok(())
        },
{
    if closed {
        return Err(Error::Closed);
    }
    if words == 0 {
        return Err(Error::LimitExceeded);
    }
    Ok(())
}

impl CommandPlan {
    pub open spec fn wf(self) -> bool {
        self.attempt <= MAX_ATTEMPTS
    }

    pub fn new(
        target: CommandTarget,
        fsid: Fsid,
        command: Vec<String>,
        input: Vec<u8>,
        transaction_id: u64,
    ) -> (r: Self)
        ensures
            r.wf(),
            r.target == target,
            r.fsid == fsid,
            r.command == command,
            r.input == input,
            r.transaction_id == transaction_id,
            r.attempt == 0,
    {
        CommandPlan {
            target,
            fsid,
            command,
            input,
            transaction_id,
            attempt: 0,
            route: CommandRoute { epoch: 0, primary: 0 },
        }
    }

    /// Starts an attempt, given whether the client is closed, whether the caller has cancelled or
    /// run out of time, and where a map sends the command, if there is a map.
    pub fn begin_attempt(
        &mut self,
        closed: bool,
        canceled: bool,
        expired: bool,
        route: Option<Result<CommandRoute, Error>>,
    ) -> (r: Result<(), Error>)
        requires
            old(self).wf(),
        ensures
            final(self).wf(),
            match attempt_failure(old(self).attempt as int, closed, canceled, expired, route) {
                Some(error) => r == Err::<(), Error>(error) && *final(self) == *old(self),
                None => r is Ok && *final(self) == (CommandPlan {
                    route: route->0->Ok_0,
                    ..*old(self)
                }) && final(self).attempt < MAX_ATTEMPTS,
            },
    {
        if self.attempt >= MAX_ATTEMPTS {
            return Err(Error::RecoveryExhausted);
        }
        if closed {
            return Err(Error::Closed);
        }
        match check_options(canceled, expired) {
            Ok(()) => {},
            Err(error) => {
                return Err(error);
            },
        }
        match route {
            None => Err(Error::NotConnected),
            Some(Err(error)) => Err(error),
            Some(Ok(route)) => {
                self.route = route;
                Ok(())
            },
        }
    }

    /// The message of an attempt.
    pub fn message(&self, max_bytes: u32) -> (r: Result<Message, Error>)
        ensures
            forall|q: CommandRequest<'_>|
                q.fsid == self.fsid && q.transaction_id == self.transaction_id && q.command@
                    == self.command@ && q.input@ == self.input@ ==> match #[trigger] command_encoding(
                    q,
                    max_bytes,
                ) {
                    Ok(message) => r matches Ok(given) && given@ == message,
                    Err(error) => r == Err::<Message, Error>(command_failure(error)),
                },
    {
        let request = CommandRequest {
            fsid: self.fsid,
            transaction_id: self.transaction_id,
            command: self.command.as_slice(),
            input: self.input.as_slice(),
        };
        match encode_command_request(&request, max_bytes) {
            Ok(message) => Ok(message),
            Err(error) => Err(map_command_message_error(error)),
        }
    }

    /// Takes what came of an attempt.
    pub fn submitted(&self, result: Result<Message, Error>, max_bytes: u32) -> (r: CommandOutcome)
        ensures
            r@ == match result {
                Ok(message) => command_answered(
                    self.route.epoch,
                    self.transaction_id,
                    message@,
                    max_bytes,
                ),
                Err(error) => command_unanswered(self.route.epoch, error),
            },
    {
        let message = match result {
            Ok(message) => message,
            Err(error) => {
                return match error {
                    Error::QueueSaturated => command_ending(error, false),
                    Error::OutcomeUnknown(_) => command_ending(error, false),
                    Error::Timeout => command_ending(error, true),
                    Error::Cancelled => command_ending(error, true),
                    _ => CommandOutcome {
                        next: CommandNext::Refresh { epoch: self.route.epoch },
                        invalidate: true,
                    },
                };
            },
        };
        match decode_command_reply(&message, max_bytes) {
            Err(_) => command_ending(Error::MalformedReply, true),
            Ok(reply) => {
                if reply.transaction_id != self.transaction_id {
                    return command_ending(Error::MalformedReply, true);
                }
                if reply.result == TRY_AGAIN {
                    return CommandOutcome {
                        next: CommandNext::Refresh { epoch: self.route.epoch },
                        invalidate: false,
                    };
                }
                let error: Option<Error> = if reply.result < 0 {
                    Some(Error::WireErrno(reply.result))
                } else {
                    None
                };
                let result = CommandResult {
                    result: reply.result,
                    status: reply.status,
                    output: reply.output,
                };
                CommandOutcome { next: CommandNext::Done(Ok((result, error))), invalidate: false }
            },
        }
    }

    /// Goes on after a map was waited for.
    pub fn refreshed(&mut self, outcome: Result<(), Error>) -> (r: CommandNext)
        requires
            old(self).wf(),
            old(self).attempt < MAX_ATTEMPTS,
        ensures
            final(self).wf(),
            match outcome {
                Ok(()) => r is Again && *final(self) == (CommandPlan {
                    attempt: (old(self).attempt + 1) as usize,
                    ..*old(self)
                }),
                Err(error) => r@ == CommandNextView::Done(Err(error)) && *final(self) == *old(
                    self,
                ),
            },
    {
        match outcome {
            Ok(()) => {
                self.attempt = self.attempt + 1;
                CommandNext::Again
            },
            Err(error) => CommandNext::Done(Err(error)),
        }
    }
}

/// A command whose outcome is not known is reported so at once, and never sent again.
pub proof fn law_unknown_commands_are_not_sent_again(
    epoch: u32,
    cause: UnknownCause,
)
    ensures
        command_unanswered(epoch, Error::OutcomeUnknown(cause)) == command_end(
            Error::OutcomeUnknown(cause),
            false,
        ),
{
}

/// What a daemon says to a command that it refuses reaches the caller beside the error.
pub proof fn law_refused_commands_keep_their_output(
    epoch: u32,
    transaction_id: u64,
    m: MessageView,
    max_bytes: u32,
)
    ensures
        command_answered(epoch, transaction_id, m, max_bytes).next matches CommandNextView::Done(
            Ok((result, Some(error))),
        ) ==> error == Error::WireErrno(result.result) && result.result < 0 && (command_decoding(
            m,
            max_bytes,
        ) matches Ok(reply) && result.status == reply.status && result.output == reply.output),
{
}

// ---------------------------------------------------------------------------
// Views
// ---------------------------------------------------------------------------

/// What stands for a value of this type is its case, with what it holds.
pub proof fn law_command_next_is_its_case(x: &CommandNext)
    ensures
        x@ == (match x {
                CommandNext::Again => CommandNextView::Again,
                CommandNext::Refresh { epoch } => CommandNextView::Refresh { epoch: *epoch },
                CommandNext::Done(Ok((result, error))) => CommandNextView::Done(
                    Ok((result@, *error)),
                ),
                CommandNext::Done(Err(error)) => CommandNextView::Done(Err(*error)),
            }),
{
}

/// What stands for a value of this type has its fields.
pub proof fn law_command_outcome_has_its_fields(x: CommandOutcome)
    ensures
        x@.next == x.next@,
        x@.invalidate == x.invalidate,
{
}

} // verus!
