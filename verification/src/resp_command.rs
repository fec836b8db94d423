//! The command model: what a framed command means, and why a frame may mean
//! none.

use vstd::prelude::*;
use vstd::string::*;
use crate::bytes::{scrub, to_vec, without_breaks};
use crate::decimal::{parse_u64, u64_field};
use crate::stream_chunking_service::{decode_lossy, text_of, StringCommand};

verus! {

/// How long a value is to live, as the client gave it.
#[derive(Debug, Clone, Copy, PartialEq, Eq, Structural)]
pub enum RespTtl {
    /// A number of seconds.
    Seconds(u64),
    /// A number of milliseconds.
    Milliseconds(u64),
}

impl RespTtl {
    /// A time to live of `seconds` seconds.
    pub fn from_seconds(seconds: u64) -> (ttl: Self)
        ensures
            ttl == RespTtl::Seconds(seconds),
    {
        RespTtl::Seconds(seconds)
    }

    /// A time to live of `milliseconds` milliseconds.
    pub fn from_milliseconds(milliseconds: u64) -> (ttl: Self)
        ensures
            ttl == RespTtl::Milliseconds(milliseconds),
    {
        RespTtl::Milliseconds(milliseconds)
    }

    /// The whole seconds of the time to live.
    pub open spec fn whole_seconds(self) -> nat {
        match self {
            RespTtl::Seconds(s) => s as nat,
            RespTtl::Milliseconds(ms) => (ms / 1000) as nat,
        }
    }

    /// The whole seconds of the time to live; a rest of milliseconds is dropped.
    pub fn to_seconds(&self) -> (seconds: u64)
        ensures
            seconds == self.whole_seconds(),
    {
        match self {
            RespTtl::Seconds(s) => *s,
            RespTtl::Milliseconds(ms) => *ms / 1000,
        }
    }
}

/// A command that the server understands.
#[derive(Debug, Clone, PartialEq, Eq)]
pub enum RespCommand {
    /// A liveness check, with an optional message.
    Ping { message: Option<Vec<u8>> },
    /// A request to send the message back.
    Echo { message: Option<Vec<u8>> },
    /// A request to store `value` under `key`, for a limited time if `ttl` says so.
    SetValue { key: Vec<u8>, value: Vec<u8>, ttl: Option<RespTtl> },
    /// A request for the value stored under `key`.
    Get { key: Vec<u8> },
}

/// A command as a mathematical value.
pub enum CommandModel {
    Ping { message: Option<Seq<u8>> },
    Echo { message: Option<Seq<u8>> },
    SetValue { key: Seq<u8>, value: Seq<u8>, ttl: Option<RespTtl> },
    Get { key: Seq<u8> },
}

/// The bytes that an optional vector holds.
pub open spec fn optional_bytes(bytes: Option<Vec<u8>>) -> Option<Seq<u8>> {
    match bytes {
        Some(b) => Some(b@),
        None => None,
    }
}

impl View for RespCommand {
    type V = CommandModel;

    open spec fn view(&self) -> CommandModel {
        match *self {
            RespCommand::Ping { message } => CommandModel::Ping {
                message: optional_bytes(message),
            },
            RespCommand::Echo { message } => CommandModel::Echo {
                message: optional_bytes(message),
            },
            RespCommand::SetValue { key, value, ttl } => CommandModel::SetValue {
                key: key@,
                value: value@,
                ttl,
            },
            RespCommand::Get { key } => CommandModel::Get { key: key@ },
        }
    }
}

/// Why a frame is no command.
#[derive(Debug, Clone, PartialEq, Eq)]
pub enum CommandError {
    /// The first part names no command that the server understands.
    UnknownCommand(Vec<u8>),
    /// The command is known, but its arguments are too few, too many, or of the
    /// wrong shape.
    InvalidArguments,
}

/// A command error as a mathematical value.
pub enum CommandErrorModel {
    UnknownCommand(Seq<u8>),
    InvalidArguments,
}

impl View for CommandError {
    type V = CommandErrorModel;

    open spec fn view(&self) -> CommandErrorModel {
        match *self {
            CommandError::UnknownCommand(name) => CommandErrorModel::UnknownCommand(name@),
            CommandError::InvalidArguments => CommandErrorModel::InvalidArguments,
        }
    }
}

impl CommandErrorModel {
    /// The description of the error that goes to the client. The name of an
    /// unknown command is shown with a blank in place of every carriage return
    /// and every line feed, so that a name cannot break the line.
    pub open spec fn description(self) -> Seq<char> {
        match self {
            CommandErrorModel::UnknownCommand(name) => "Unknown command: "@ + text_of(
                without_breaks(name),
            ),
            CommandErrorModel::InvalidArguments => "Invalid arguments"@,
        }
    }
}

impl CommandError {
    /// The description of the error that goes to the client.
    pub fn to_string(&self) -> (text: String)
        ensures
            text@ == self@.description(),
    {
        match self {
            CommandError::UnknownCommand(name) => {
                let mut text = String::from_str("Unknown command: ");
                let cleaned = scrub(name.as_slice());
                let shown = decode_lossy(&cleaned);
                text.append(shown.as_str());
                text
            },
            CommandError::InvalidArguments => String::from_str("Invalid arguments"),
        }
    }
}

/// The upper-case form of an ASCII letter; any other byte as it is.
pub open spec fn upper(b: u8) -> u8 {
    if 97 <= b <= 122 {
        (b - 32) as u8
    } else {
        b
    }
}

/// A byte string with its ASCII letters in upper case.
pub open spec fn uppercase(s: Seq<u8>) -> Seq<u8> {
    Seq::new(s.len(), |i: int| upper(s[i]))
}

/// The word `PING`.
pub open spec fn word_ping() -> Seq<u8> {
    seq![80u8, 73u8, 78u8, 71u8]
}

/// The word `ECHO`.
pub open spec fn word_echo() -> Seq<u8> {
    seq![69u8, 67u8, 72u8, 79u8]
}

/// The word `SET`.
pub open spec fn word_set() -> Seq<u8> {
    seq![83u8, 69u8, 84u8]
}

/// The word `GET`.
pub open spec fn word_get() -> Seq<u8> {
    seq![71u8, 69u8, 84u8]
}

/// The word `EX`, which announces a time to live in seconds.
pub open spec fn word_ex() -> Seq<u8> {
    seq![69u8, 88u8]
}

/// The word `PX`, which announces a time to live in milliseconds.
pub open spec fn word_px() -> Seq<u8> {
    seq![80u8, 88u8]
}

/// The time to live that a modifier and an amount denote: `EX` or `PX` in any
/// mix of cases, and an unsigned decimal field that fits in 64 bits.
pub open spec fn parse_expiry(modifier: Seq<u8>, amount: Seq<u8>) -> Option<RespTtl> {
    match u64_field(amount) {
        Some(n) => if uppercase(modifier) == word_ex() {
            Some(RespTtl::Seconds(n))
        } else if uppercase(modifier) == word_px() {
            Some(RespTtl::Milliseconds(n))
        } else {
            None
        },
        None => None,
    }
}

/// What a frame means. The first part is the command's name, in any mix of
/// cases; the others are its arguments: `PING [message]`, `ECHO message`,
/// `SET key value [EX seconds | PX milliseconds]`, `GET key`.
pub open spec fn parse_command(frame: Seq<Seq<u8>>) -> Result<CommandModel, CommandErrorModel> {
    if frame.len() == 0 {
        Err(CommandErrorModel::InvalidArguments)
    } else if uppercase(frame[0]) == word_ping() {
        if frame.len() == 1 {
            Ok(CommandModel::Ping { message: None })
        } else if frame.len() == 2 {
            Ok(CommandModel::Ping { message: Some(frame[1]) })
        } else {
            Err(CommandErrorModel::InvalidArguments)
        }
    } else if uppercase(frame[0]) == word_echo() {
        if frame.len() == 2 {
            Ok(CommandModel::Echo { message: Some(frame[1]) })
        } else {
            Err(CommandErrorModel::InvalidArguments)
        }
    } else if uppercase(frame[0]) == word_set() {
        if frame.len() == 3 {
            Ok(CommandModel::SetValue { key: frame[1], value: frame[2], ttl: None })
        } else if frame.len() == 5 {
            match parse_expiry(frame[3], frame[4]) {
                Some(ttl) => Ok(
                    CommandModel::SetValue { key: frame[1], value: frame[2], ttl: Some(ttl) },
                ),
                None => Err(CommandErrorModel::InvalidArguments),
            }
        } else {
            Err(CommandErrorModel::InvalidArguments)
        }
    } else if uppercase(frame[0]) == word_get() {
        if frame.len() == 2 {
            Ok(CommandModel::Get { key: frame[1] })
        } else {
            Err(CommandErrorModel::InvalidArguments)
        }
    } else {
        Err(CommandErrorModel::UnknownCommand(frame[0]))
    }
}

/// The upper-case form of an ASCII letter; any other byte as it is.
pub fn to_upper(b: u8) -> (r: u8)
    ensures
        r == upper(b),
{
    if 97 <= b && b <= 122 {
        b - 32
    } else {
        b
    }
}

/// True when `name` is the upper-case `word` in some mix of cases.
pub fn is_word(name: &[u8], word: &[u8]) -> (r: bool)
    ensures
        r == (uppercase(name@) == word@),
{
    if name.len() != word.len() {
        return false;
    }
    let mut i: usize = 0;
    while i < name.len()
        invariant
            name@.len() == word@.len(),
            i <= name@.len(),
            forall|j: int| 0 <= j < i ==> upper(name@[j]) == word@[j],
        decreases name.len() - i,
    {
        if to_upper(name[i]) != word[i] {
            assert(uppercase(name@)[i as int] != word@[i as int]);
            return false;
        }
        i += 1;
    }
    assert(uppercase(name@) =~= word@);
    true
}

/// Reads a time to live from a modifier and an amount.
pub fn read_expiry(modifier: &[u8], amount: &[u8]) -> (r: Option<RespTtl>)
    ensures
        r == parse_expiry(modifier@, amount@),
{
    let ex: [u8; 2] = [69, 88];
    let px: [u8; 2] = [80, 88];
    assert(ex@ =~= word_ex());
    assert(px@ =~= word_px());
    match parse_u64(amount) {
        Some(n) => {
            if is_word(modifier, ex.as_slice()) {
                Some(RespTtl::Seconds(n))
            } else if is_word(modifier, px.as_slice()) {
                Some(RespTtl::Milliseconds(n))
            } else {
                None
            }
        },
        None => None,
    }
}

impl RespCommand {
    /// Reads a framed command.
    pub fn parse(string_command_with_args: StringCommand) -> (r: Result<RespCommand, CommandError>)
        ensures
            match parse_command(string_command_with_args@) {
                Ok(command) => r matches Ok(c) && c@ == command,
                Err(error) => r matches Err(e) && e@ == error,
            },
    {
        RespCommand::parse_frame(&string_command_with_args)
    }

    /// Reads a framed command, leaving the frame with the caller.
    pub fn parse_frame(string_command_with_args: &StringCommand) -> (r: Result<
        RespCommand,
        CommandError,
    >)
        ensures
            match parse_command(string_command_with_args@) {
                Ok(command) => r matches Ok(c) && c@ == command,
                Err(error) => r matches Err(e) && e@ == error,
            },
    {
        let parts = string_command_with_args.parts();
        let count = parts.len();
        let ghost frame = string_command_with_args@;
        assert(forall|i: int| 0 <= i < count ==> frame[i] == parts@[i]@);
        let ping: [u8; 4] = [80, 73, 78, 71];
        let echo: [u8; 4] = [69, 67, 72, 79];
        let set: [u8; 3] = [83, 69, 84];
        let get: [u8; 3] = [71, 69, 84];
        assert(ping@ =~= word_ping());
        assert(echo@ =~= word_echo());
        assert(set@ =~= word_set());
        assert(get@ =~= word_get());
        let name = parts[0].as_slice();
        if is_word(name, ping.as_slice()) {
            if count == 1 {
                Ok(RespCommand::Ping { message: None })
            } else if count == 2 {
                Ok(RespCommand::Ping { message: Some(to_vec(parts[1].as_slice())) })
            } else {
                Err(CommandError::InvalidArguments)
            }
        } else if is_word(name, echo.as_slice()) {
            if count == 2 {
                Ok(RespCommand::Echo { message: Some(to_vec(parts[1].as_slice())) })
            } else {
                Err(CommandError::InvalidArguments)
            }
        } else if is_word(name, set.as_slice()) {
            if count == 3 {
                Ok(
                    RespCommand::SetValue {
                        key: to_vec(parts[1].as_slice()),
                        value: to_vec(parts[2].as_slice()),
                        ttl: None,
                    },
                )
            } else if count == 5 {
                match read_expiry(parts[3].as_slice(), parts[4].as_slice()) {
                    Some(ttl) => Ok(
                        RespCommand::SetValue {
                            key: to_vec(parts[1].as_slice()),
                            value: to_vec(parts[2].as_slice()),
                            ttl: Some(ttl),
                        },
                    ),
                    None => Err(CommandError::InvalidArguments),
                }
            } else {
                Err(CommandError::InvalidArguments)
            }
        } else if is_word(name, get.as_slice()) {
            if count == 2 {
                Ok(RespCommand::Get { key: to_vec(parts[1].as_slice()) })
            } else {
                Err(CommandError::InvalidArguments)
            }
        } else {
            Err(CommandError::UnknownCommand(to_vec(name)))
        }
    }

    /// True when carrying out the command changes the store.
    pub fn writes(&self) -> (r: bool)
        ensures
            r == (self@ is SetValue),
    {
        match self {
            RespCommand::SetValue { .. } => true,
            _ => false,
        }
    }
}

} // verus!
