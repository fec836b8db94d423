//! From the outcome of a command to the response that answers it.

use vstd::prelude::*;
use vstd::string::*;
use crate::bytes::to_vec;
use crate::command_handler::{CommandHandlerResult, CommandHandlerResultStatus, OutcomeModel};
use crate::resp_command::{CommandModel, RespCommand};
use crate::resp_response::{RespResponse, ResponseModel};

verus! {

/// Builds responses.
#[derive(Debug, Clone, Copy, PartialEq, Eq, Structural)]
pub struct ResponseBuilder {}

/// True when the payload has the shape that the command gives rise to: none
/// for a liveness check and for a write, one for an echo, either for a read.
pub open spec fn shape_matches(outcome: OutcomeModel) -> bool {
    match outcome.command {
        CommandModel::Ping { message } => outcome.payload is None,
        CommandModel::Echo { message } => outcome.payload is Some,
        CommandModel::SetValue { key, value, ttl } => outcome.payload is None,
        CommandModel::Get { key } => true,
    }
}

/// The response that answers an outcome of the right shape: `PONG` to a
/// liveness check, whatever its message; the message to an echo; `OK` to a
/// write; the value, or its absence, to a read.
pub open spec fn response_for(outcome: OutcomeModel) -> ResponseModel {
    match outcome.command {
        CommandModel::Ping { message } => ResponseModel::SimpleString("PONG"@),
        CommandModel::Echo { message } => ResponseModel::BulkString(outcome.payload),
        CommandModel::SetValue { key, value, ttl } => ResponseModel::SimpleString("OK"@),
        CommandModel::Get { key } => ResponseModel::BulkString(outcome.payload),
    }
}

/// What is reported for an outcome of the wrong shape.
pub open spec fn mismatch_text(command: CommandModel) -> Seq<char> {
    match command {
        CommandModel::Ping { message } => "Mismatched command result for PING"@,
        CommandModel::Echo { message } => "Mismatched command result for ECHO"@,
        CommandModel::SetValue { key, value, ttl } => "Mismatched command result for SET"@,
        CommandModel::Get { key } => "Mismatched command result for GET"@,
    }
}

impl ResponseBuilder {
    /// A builder.
    pub fn new() -> (builder: Self) {
        Self {  }
    }

    /// The response that answers `handler_result`. An outcome whose shape does
    /// not match its command is refused, not coerced.
    pub fn create(&self, handler_result: CommandHandlerResult) -> (r: Result<RespResponse, String>)
        ensures
            shape_matches(handler_result@) ==> (r matches Ok(response) && response@
                == response_for(handler_result@)),
            !shape_matches(handler_result@) ==> (r matches Err(text) && text@ == mismatch_text(
                handler_result@.command,
            )),
    {
        let command = handler_result.get_resp_command();
        match command {
            RespCommand::Ping { message: _ } => {
                match handler_result.get_status() {
                    CommandHandlerResultStatus::Done(None) => Ok(RespResponse::pong()),
                    _ => Err(String::from_str("Mismatched command result for PING")),
                }
            },
            RespCommand::Echo { message: _ } => {
                match handler_result.get_status() {
                    CommandHandlerResultStatus::Done(Some(msg)) => Ok(
                        RespResponse::echo(to_vec(msg.as_slice())),
                    ),
                    _ => Err(String::from_str("Mismatched command result for ECHO")),
                }
            },
            RespCommand::SetValue { key: _, value: _, ttl: _ } => {
                match handler_result.get_status() {
                    CommandHandlerResultStatus::Done(None) => Ok(RespResponse::set()),
                    _ => Err(String::from_str("Mismatched command result for SET")),
                }
            },
            RespCommand::Get { key: _ } => {
                match handler_result.get_status() {
                    CommandHandlerResultStatus::Done(Some(value)) => Ok(
                        RespResponse::get(to_vec(value.as_slice())),
                    ),
                    CommandHandlerResultStatus::Done(None) => Ok(RespResponse::null()),
                }
            },
        }
    }
}

} // verus!
