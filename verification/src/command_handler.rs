//! Carrying out a command against the store.

use vstd::prelude::*;
use crate::bytes::to_vec;
use crate::clock::now_ms;
use crate::command_repository::{written, CommandRepository, TTL};
use crate::query_repository::{live_value, QueryRepository};
use crate::resp_command::{optional_bytes, CommandModel, RespCommand};
use crate::storage::{Storage, StoreModel};

verus! {

/// How carrying out a command ended: with a payload, or with none.
#[derive(Debug, Clone, PartialEq, Eq)]
pub enum CommandHandlerResultStatus {
    Done(Option<Vec<u8>>),
}

impl View for CommandHandlerResultStatus {
    type V = Option<Seq<u8>>;

    /// The payload.
    open spec fn view(&self) -> Option<Seq<u8>> {
        match *self {
            CommandHandlerResultStatus::Done(payload) => optional_bytes(payload),
        }
    }
}

/// A command together with how carrying it out ended.
#[derive(Debug)]
pub struct CommandHandlerResult {
    resp_command: RespCommand,
    status: CommandHandlerResultStatus,
}

/// The outcome of a command as a mathematical value.
pub struct OutcomeModel {
    /// The command that was carried out.
    pub command: CommandModel,
    /// The payload that carrying it out gave.
    pub payload: Option<Seq<u8>>,
}

impl View for CommandHandlerResult {
    type V = OutcomeModel;

    closed spec fn view(&self) -> OutcomeModel {
        OutcomeModel { command: self.resp_command@, payload: self.status@ }
    }
}

impl CommandHandlerResult {
    /// The outcome `status` of the command `resp_command`.
    pub fn new(resp_command: RespCommand, status: CommandHandlerResultStatus) -> (result: Self)
        ensures
            result@ == (OutcomeModel { command: resp_command@, payload: status@ }),
    {
        Self { resp_command, status }
    }

    /// How carrying out the command ended.
    pub fn get_status(&self) -> (status: &CommandHandlerResultStatus)
        ensures
            status@ == self@.payload,
    {
        &self.status
    }

    /// The command that was carried out.
    pub fn get_resp_command(&self) -> (command: &RespCommand)
        ensures
            command@ == self@.command,
    {
        &self.resp_command
    }
}

/// The payload that carrying out `command` at the instant `now_ms` gives: a
/// liveness check and a write give none, an echo gives its message, a read
/// gives the value that is there and has not expired.
pub open spec fn payload_of(store: StoreModel, command: CommandModel, now_ms: u64) -> Option<Seq<u8>> {
    match command {
        CommandModel::Ping { message } => None,
        CommandModel::Echo { message } => message,
        CommandModel::SetValue { key, value, ttl } => None,
        CommandModel::Get { key } => live_value(store, key, now_ms),
    }
}

/// The store after `command` was carried out at the instant `now_ms`: only a
/// write changes it.
pub open spec fn store_after(store: StoreModel, command: CommandModel, now_ms: u64) -> StoreModel {
    match command {
        CommandModel::SetValue { key, value, ttl } => written(
            store,
            key,
            value,
            TTL::of(ttl),
            now_ms,
        ),
        _ => store,
    }
}

/// Carries out commands against a store.
pub struct CommandHandler<'a> {
    /// The store that the commands read and write.
    pub storage: &'a mut Storage,
}

impl<'a> CommandHandler<'a> {
    /// A handler for `storage`: what its commands write, `storage` holds once
    /// the handler is gone.
    pub fn new(storage: &'a mut Storage) -> (handler: Self)
        ensures
            *handler.storage == *old(storage),
            *final(handler.storage) == *final(storage),
    {
        CommandHandler { storage }
    }

    /// Carries out a command that does not write, as of the instant `now_ms`.
    pub fn handle_query_at(
        query_repository: &QueryRepository,
        command: RespCommand,
        now_ms: u64,
    ) -> (result: CommandHandlerResult)
        requires
            !(command@ is SetValue),
        ensures
            result@ == (OutcomeModel {
                command: command@,
                payload: payload_of(query_repository.storage@, command@, now_ms),
            }),
    {
        let status = match &command {
            RespCommand::Ping { message: _ } => CommandHandlerResultStatus::Done(None),
            RespCommand::Echo { message } => match message {
                Some(m) => CommandHandlerResultStatus::Done(Some(to_vec(m.as_slice()))),
                None => CommandHandlerResultStatus::Done(None),
            },
            RespCommand::Get { key } => CommandHandlerResultStatus::Done(
                query_repository.get_at(to_vec(key.as_slice()), now_ms),
            ),
            RespCommand::SetValue { .. } => CommandHandlerResultStatus::Done(None),
        };
        CommandHandlerResult::new(command, status)
    }

    /// Carries out a command that does not write, as of the present instant,
    /// which it reads from the wall clock.
    pub fn handle_query(query_repository: &QueryRepository, command: RespCommand) -> (result:
        CommandHandlerResult)
        requires
            !(command@ is SetValue),
        ensures
            exists|now_ms: u64|
                result@ == (OutcomeModel {
                    command: command@,
                    payload: #[trigger] payload_of(query_repository.storage@, command@, now_ms),
                }),
    {
        let now = now_ms();
        Self::handle_query_at(query_repository, command, now)
    }

    /// Carries out a command as of the instant `now_ms`. The handler goes on
    /// with the same store.
    pub fn handle_command_at(&mut self, command: RespCommand, now_ms: u64) -> (result:
        CommandHandlerResult)
        ensures
            result@ == (OutcomeModel {
                command: command@,
                payload: payload_of(old(self).storage@, command@, now_ms),
            }),
            final(self).storage@ == store_after(old(self).storage@, command@, now_ms),
            *final(final(self).storage) == *final(old(self).storage),
    {
        match &command {
            RespCommand::SetValue { key, value, ttl } => {
                let ttl: TTL = match ttl {
                    Some(resp_ttl) => TTL::from(resp_ttl),
                    None => TTL::Indefinite,
                };
                let mut command_repository = CommandRepository::new(&mut *self.storage);
                command_repository.set_at(
                    to_vec(key.as_slice()),
                    to_vec(value.as_slice()),
                    ttl,
                    now_ms,
                );
                CommandHandlerResult::new(command, CommandHandlerResultStatus::Done(None))
            },
            _ => {
                let query_repository = QueryRepository::new(&*self.storage);
                Self::handle_query_at(&query_repository, command, now_ms)
            },
        }
    }

    /// Carries out a command as of the present instant, which it reads from the
    /// wall clock. The handler goes on with the same store.
    pub fn handle_command(&mut self, command: RespCommand) -> (result: CommandHandlerResult)
        ensures
            exists|now_ms: u64|
                result@ == (OutcomeModel {
                    command: command@,
                    payload: #[trigger] payload_of(old(self).storage@, command@, now_ms),
                }) && final(self).storage@ == store_after(old(self).storage@, command@, now_ms),
            *final(final(self).storage) == *final(old(self).storage),
    {
        let now = now_ms();
        self.handle_command_at(command, now)
    }
}

} // verus!
