//! What a connection does with the bytes it receives: each completed command is
//! read, carried out and answered; a frame that is no command is answered with
//! an error; malformed bytes end the connection.

use vstd::prelude::*;
use vstd::string::*;
use vstd::utf8::*;
use crate::bytes::{
    append_bytes, crlf, first_crlf, has_crlf, is_break, lemma_ascii_is_text, lemma_line_found,
    lemma_scan_crlf, lemma_without_breaks_holds_no_terminator, lemma_without_breaks_is_text,
    scrub, without_breaks, CR, LF, SPACE,
};
use crate::clock::now_ms;
use crate::command_handler::{payload_of, store_after, CommandHandler, OutcomeModel};
use crate::framing::{feed, lemma_feed_split, DecoderState};
use crate::new_line_stream_chunking_service::NewLineStreamChunkingService;
use crate::query_repository::QueryRepository;
use crate::resp_command::{parse_command, CommandError, CommandModel, RespCommand};
use crate::resp_response::{wire, ResponseModel, ERROR_MARKER};
use crate::response_builder::{mismatch_text, response_for, shape_matches, ResponseBuilder};
use crate::storage::{Storage, StoreModel};
use crate::stream_chunking_service::{
    frames_of, StreamChunkingService, StreamChunkingServiceError, StringCommand,
};
use crate::wire_reader::{lemma_round_trip, read_response, readable};

verus! {

/// The word that opens every error line: `ERR` and a blank.
pub open spec fn err_word() -> Seq<u8> {
    seq![69u8, 82u8, 82u8, SPACE]
}

/// The line of the error response that reports `description`: the word `ERR`
/// and the description, with a blank in place of every carriage return and
/// every line feed, so that no description can break the line.
pub open spec fn error_line(description: Seq<char>) -> Seq<u8> {
    err_word() + without_breaks(encode_utf8(description))
}

/// The error response that reports `description` to the client: the error
/// marker, the error line and a line terminator.
pub open spec fn error_wire(description: Seq<char>) -> Seq<u8> {
    seq![ERROR_MARKER] + error_line(description) + crlf()
}

/// What carrying out `command` at the instant `now_ms` gives: the wire form of
/// its response, or the report of an outcome of the wrong shape.
pub open spec fn command_result(store: StoreModel, command: CommandModel, now_ms: u64) -> Result<
    Seq<u8>,
    Seq<char>,
> {
    let outcome = OutcomeModel { command, payload: payload_of(store, command, now_ms) };
    if shape_matches(outcome) {
        Ok(wire(response_for(outcome)))
    } else {
        Err(mismatch_text(command))
    }
}

/// The bytes that answer `command` at the instant `now_ms`: the wire form of
/// its response, or an error response that reports an outcome of the wrong
/// shape.
pub open spec fn command_reply(store: StoreModel, command: CommandModel, now_ms: u64) -> Seq<u8> {
    match command_result(store, command, now_ms) {
        Ok(bytes) => bytes,
        Err(text) => error_wire(text),
    }
}

/// The bytes that answer `frame` at the instant `now_ms`: the answer to the
/// command that the frame means, or an error response that says why it means
/// none.
pub open spec fn frame_reply(store: StoreModel, frame: Seq<Seq<u8>>, now_ms: u64) -> Seq<u8> {
    match parse_command(frame) {
        Ok(command) => command_reply(store, command, now_ms),
        Err(error) => error_wire(error.description()),
    }
}

/// The store after `frame` was answered at the instant `now_ms`.
pub open spec fn store_after_frame(
    store: StoreModel,
    frame: Seq<Seq<u8>>,
    now_ms: u64,
) -> StoreModel {
    match parse_command(frame) {
        Ok(command) => store_after(store, command, now_ms),
        Err(error) => store,
    }
}

/// What answering a sequence of frames gives.
pub struct Served {
    /// The answers, one after the other.
    pub output: Seq<u8>,
    /// The store afterwards.
    pub store: StoreModel,
}

/// Answers `frames` in order at the instant `now_ms`, each against the store
/// that the ones before it left.
pub open spec fn serve_frames(
    store: StoreModel,
    frames: Seq<Seq<Seq<u8>>>,
    now_ms: u64,
) -> Served
    decreases frames.len(),
{
    if frames.len() == 0 {
        Served { output: Seq::empty(), store }
    } else {
        let before = serve_frames(store, frames.drop_last(), now_ms);
        Served {
            output: before.output + frame_reply(before.store, frames.last(), now_ms),
            store: store_after_frame(before.store, frames.last(), now_ms),
        }
    }
}

/// Writes the error response that reports `description` to the client. It is
/// one line whatever the description holds.
pub fn error_reply(description: &str) -> (out: Vec<u8>)
    ensures
        out@ == error_wire(description@),
{
    let mut out: Vec<u8> = Vec::new();
    out.push(ERROR_MARKER);
    out.push(69u8);
    out.push(82u8);
    out.push(82u8);
    out.push(SPACE);
    let cleaned = scrub(description.as_bytes());
    append_bytes(&mut out, cleaned.as_slice());
    out.push(CR);
    out.push(LF);
    assert(out@ =~= error_wire(description@));
    out
}

/// Carries out a command as of the instant `now_ms` and writes its response.
pub fn process_command_at(storage: &mut Storage, command: RespCommand, now_ms: u64) -> (r: Result<
    Vec<u8>,
    String,
>)
    ensures
        final(storage)@ == store_after(old(storage)@, command@, now_ms),
        match command_result(old(storage)@, command@, now_ms) {
            Ok(bytes) => r matches Ok(out) && out@ == bytes,
            Err(text) => r matches Err(e) && e@ == text,
        },
{
    let mut handler = CommandHandler::new(storage);
    let handler_result = handler.handle_command_at(command, now_ms);
    let response_factory = ResponseBuilder::new();
    match response_factory.create(handler_result) {
        Ok(resp_response) => Ok(resp_response.to_resp()),
        Err(e) => Err(e),
    }
}

/// Carries out a command as of the present instant, which the handler reads
/// from the wall clock, and writes its response.
pub fn process_command(storage: &mut Storage, command: RespCommand) -> (r: Result<Vec<u8>, String>)
    ensures
        exists|now_ms: u64|
            final(storage)@ == #[trigger] store_after(old(storage)@, command@, now_ms) && (
            match command_result(old(storage)@, command@, now_ms) {
                Ok(bytes) => r matches Ok(out) && out@ == bytes,
                Err(text) => r matches Err(e) && e@ == text,
            }),
{
    let mut handler = CommandHandler::new(storage);
    let handler_result = handler.handle_command(command);
    let response_factory = ResponseBuilder::new();
    match response_factory.create(handler_result) {
        Ok(resp_response) => Ok(resp_response.to_resp()),
        Err(e) => Err(e),
    }
}

/// Carries out a command that does not write as of the instant `now_ms`, and
/// writes its response.
pub fn process_query_at(storage: &Storage, command: RespCommand, now_ms: u64) -> (r: Result<
    Vec<u8>,
    String,
>)
    requires
        !(command@ is SetValue),
    ensures
        match command_result(storage@, command@, now_ms) {
            Ok(bytes) => r matches Ok(out) && out@ == bytes,
            Err(text) => r matches Err(e) && e@ == text,
        },
{
    let query_repository = QueryRepository::new(storage);
    let handler_result = CommandHandler::handle_query_at(&query_repository, command, now_ms);
    let response_factory = ResponseBuilder::new();
    match response_factory.create(handler_result) {
        Ok(resp_response) => Ok(resp_response.to_resp()),
        Err(e) => Err(e),
    }
}

/// Carries out a command that does not write as of the present instant, which
/// the handler reads from the wall clock, and writes its response.
pub fn process_query(storage: &Storage, command: RespCommand) -> (r: Result<Vec<u8>, String>)
    requires
        !(command@ is SetValue),
    ensures
        exists|now_ms: u64|
            match #[trigger] command_result(storage@, command@, now_ms) {
                Ok(bytes) => r matches Ok(out) && out@ == bytes,
                Err(text) => r matches Err(e) && e@ == text,
            },
{
    let query_repository = QueryRepository::new(storage);
    let handler_result = CommandHandler::handle_query(&query_repository, command);
    let ghost outcome = handler_result@;
    let response_factory = ResponseBuilder::new();
    let r = match response_factory.create(handler_result) {
        Ok(resp_response) => Ok(resp_response.to_resp()),
        Err(e) => Err(e),
    };
    proof {
        let now = choose|now_ms: u64|
            outcome == (OutcomeModel {
                command: command@,
                payload: #[trigger] payload_of(storage@, command@, now_ms),
            });
        assert(command_result(storage@, command@, now) is Ok <==> r is Ok);
    }
    r
}

/// Writes the error response that tells the client why a frame is no command.
pub fn refusal(error: &CommandError) -> (out: Vec<u8>)
    ensures
        out@ == error_wire(error@.description()),
{
    let text = error.to_string();
    error_reply(text.as_str())
}

/// Answers a command as of the instant `now_ms`: carries it out and writes its
/// response, or the error response that reports an outcome of the wrong shape.
pub fn answer_command_at(storage: &mut Storage, command: RespCommand, now_ms: u64) -> (out: Vec<u8>)
    ensures
        out@ == command_reply(old(storage)@, command@, now_ms),
        final(storage)@ == store_after(old(storage)@, command@, now_ms),
{
    match process_command_at(storage, command, now_ms) {
        Ok(response) => response,
        Err(e) => error_reply(e.as_str()),
    }
}

/// Answers a command as of the present instant, which it reads from the wall
/// clock.
pub fn answer_command(storage: &mut Storage, command: RespCommand) -> (out: Vec<u8>)
    ensures
        exists|now_ms: u64|
            out@ == #[trigger] command_reply(old(storage)@, command@, now_ms) && final(storage)@
                == store_after(old(storage)@, command@, now_ms),
{
    let now = now_ms();
    answer_command_at(storage, command, now)
}

/// Answers a command that does not write as of the instant `now_ms`; read
/// access to the store is enough for it.
pub fn answer_query_at(storage: &Storage, command: RespCommand, now_ms: u64) -> (out: Vec<u8>)
    requires
        !(command@ is SetValue),
    ensures
        out@ == command_reply(storage@, command@, now_ms),
{
    match process_query_at(storage, command, now_ms) {
        Ok(response) => response,
        Err(e) => error_reply(e.as_str()),
    }
}

/// Answers a command that does not write as of the present instant, which it
/// reads from the wall clock; read access to the store is enough for it.
pub fn answer_query(storage: &Storage, command: RespCommand) -> (out: Vec<u8>)
    requires
        !(command@ is SetValue),
    ensures
        exists|now_ms: u64| out@ == #[trigger] command_reply(storage@, command@, now_ms),
{
    let now = now_ms();
    answer_query_at(storage, command, now)
}

/// Answers one frame as of the instant `now_ms`.
pub fn reply_at(storage: &mut Storage, frame: &StringCommand, now_ms: u64) -> (out: Vec<u8>)
    ensures
        out@ == frame_reply(old(storage)@, frame@, now_ms),
        final(storage)@ == store_after_frame(old(storage)@, frame@, now_ms),
{
    match RespCommand::parse_frame(frame) {
        Ok(resp_command) => answer_command_at(storage, resp_command, now_ms),
        Err(e) => refusal(&e),
    }
}

/// What a connection does after a chunk.
#[derive(Debug)]
pub struct ChunkReply {
    /// The bytes to send to the client, possibly none.
    pub output: Vec<u8>,
    /// True when the connection is to be closed.
    pub close: bool,
}

/// Takes the next chunk of a connection as of the instant `now_ms`: feeds it
/// to the decoder and answers each command that it completes, in order. The
/// connection is to be closed when the decoder reports malformed bytes, which
/// it does when they stand in front of every command not yet handed out.
pub fn serve_chunk_at(
    decoder: &mut NewLineStreamChunkingService,
    storage: &mut Storage,
    chunk: &[u8],
    now_ms: u64,
) -> (reply: ChunkReply)
    requires
        old(decoder).well_formed(),
    ensures
        final(decoder).well_formed(),
        final(decoder)@ == feed(old(decoder)@, chunk@).state,
        reply.output@ == serve_frames(
            old(storage)@,
            feed(old(decoder)@, chunk@).frames,
            now_ms,
        ).output,
        final(storage)@ == serve_frames(
            old(storage)@,
            feed(old(decoder)@, chunk@).frames,
            now_ms,
        ).store,
        reply.close == (feed(old(decoder)@, chunk@).frames.len() == 0 && feed(
            old(decoder)@,
            chunk@,
        ).failed),
{
    let mut output: Vec<u8> = Vec::new();
    match decoder.next(chunk) {
        Ok(commands) => {
            let ghost frames = frames_of(commands@);
            let ghost start = storage@;
            let mut i: usize = 0;
            assert(frames.take(0) =~= Seq::<Seq<Seq<u8>>>::empty());
            while i < commands.len()
                invariant
                    i <= commands@.len(),
                    frames == frames_of(commands@),
                    output@ == serve_frames(start, frames.take(i as int), now_ms).output,
                    storage@ == serve_frames(start, frames.take(i as int), now_ms).store,
                decreases commands.len() - i,
            {
                proof {
                    let next = frames.take(i + 1);
                    assert(next.drop_last() == frames.take(i as int));
                    assert(next.last() == commands@[i as int]@);
                }
                let answer = reply_at(storage, &commands[i], now_ms);
                append_bytes(&mut output, answer.as_slice());
                i += 1;
            }
            assert(frames.take(commands@.len() as int) == frames);
            ChunkReply { output, close: false }
        },
        Err(StreamChunkingServiceError::IncompleteCommand) => ChunkReply { output, close: false },
        Err(StreamChunkingServiceError::InvalidFormat) => ChunkReply { output, close: true },
    }
}

/// An error response is one line: it holds one line terminator, at its end,
/// and neither a carriage return nor a line feed before it.
pub proof fn lemma_error_wire_is_one_line(description: Seq<char>)
    ensures
        first_crlf(error_wire(description)) == Some(error_wire(description).len() - 2),
        !has_crlf(error_line(description)),
        forall|i: int|
            0 <= i < error_line(description).len() ==> !is_break(
                #[trigger] error_line(description)[i],
            ),
{
    let line = error_line(description);
    let cleaned = without_breaks(encode_utf8(description));
    lemma_without_breaks_holds_no_terminator(encode_utf8(description));
    assert forall|i: int| 0 <= i < line.len() implies !is_break(#[trigger] line[i]) by {
        if i >= 4 {
            assert(line[i] == cleaned[i - 4]);
        }
    }
    lemma_scan_crlf(line, 0);
    lemma_line_found(ERROR_MARKER, line, Seq::empty());
    assert(error_wire(description) =~= seq![ERROR_MARKER] + line + crlf() + Seq::<u8>::empty());
}

/// An error response is the wire form of an error that can be read back: its
/// line is text, whatever bytes the description came from.
pub proof fn lemma_error_wire_is_an_error(description: Seq<char>)
    ensures
        valid_utf8(error_line(description)),
        error_wire(description) == wire(
            ResponseModel::Error(decode_utf8(error_line(description))),
        ),
        readable(ResponseModel::Error(decode_utf8(error_line(description)))),
        read_response(error_wire(description)) == Some(
            (
                ResponseModel::Error(decode_utf8(error_line(description))),
                error_wire(description).len() as int,
            ),
        ),
{
    let line = error_line(description);
    let text = decode_utf8(line);
    lemma_error_wire_is_one_line(description);
    lemma_ascii_is_text(err_word());
    encode_utf8_valid_utf8(description);
    lemma_without_breaks_is_text(encode_utf8(description));
    valid_utf8_concat(err_word(), without_breaks(encode_utf8(description)));
    decode_utf8_encode_utf8(line);
    lemma_round_trip(ResponseModel::Error(text));
}

/// The two words that the server answers with hold no line terminator.
pub proof fn lemma_words_are_one_line()
    ensures
        !has_crlf(encode_utf8("PONG"@)),
        !has_crlf(encode_utf8("OK"@)),
{
    reveal_strlit("PONG");
    reveal_strlit("OK");
    is_ascii_chars_encode_utf8("PONG"@);
    is_ascii_chars_encode_utf8("OK"@);
    lemma_scan_crlf(encode_utf8("PONG"@), 0);
    lemma_scan_crlf(encode_utf8("OK"@), 0);
}

/// Every answer is a response that can be read back: whatever the frame
/// holds, what is sent for it is the wire form of one response, which a
/// reader of the protocol reads as that response and nothing else. The
/// lengths of what is stored and of the frame's parts must fit a machine
/// word, as they do for all that the machine holds.
pub proof fn lemma_answer_reads_back(store: StoreModel, frame: Seq<Seq<u8>>, now_ms: u64)
    requires
        forall|key: Seq<u8>| #[trigger]
            store.contains_key(key) ==> store[key].value.len() <= usize::MAX,
        forall|i: int| 0 <= i < frame.len() ==> (#[trigger] frame[i]).len() <= usize::MAX,
    ensures
        exists|response: ResponseModel|
            frame_reply(store, frame, now_ms) == #[trigger] wire(response) && readable(response)
                && read_response(wire(response)) == Some((response, wire(response).len() as int)),
{
    match parse_command(frame) {
        Ok(command) => {
            let outcome = OutcomeModel { command, payload: payload_of(store, command, now_ms) };
            if shape_matches(outcome) {
                let response = response_for(outcome);
                lemma_words_are_one_line();
                assert(readable(response));
                lemma_round_trip(response);
                assert(frame_reply(store, frame, now_ms) == wire(response));
            } else {
                let text = mismatch_text(command);
                lemma_error_wire_is_an_error(text);
                assert(frame_reply(store, frame, now_ms) == wire(
                    ResponseModel::Error(decode_utf8(error_line(text))),
                ));
            }
        },
        Err(error) => {
            let text = error.description();
            lemma_error_wire_is_an_error(text);
            assert(frame_reply(store, frame, now_ms) == wire(
                ResponseModel::Error(decode_utf8(error_line(text))),
            ));
        },
    }
}

/// Every command that a frame means is answered with its response: the
/// outcome of carrying it out has the shape that its kind gives rise to, so
/// the report of a wrong shape never goes to a client.
pub proof fn lemma_parsed_command_is_answered(
    store: StoreModel,
    frame: Seq<Seq<u8>>,
    now_ms: u64,
)
    requires
        parse_command(frame) is Ok,
    ensures
        command_result(store, parse_command(frame)->Ok_0, now_ms) is Ok,
{
}

/// Answering frames one batch after the other gives what answering them in
/// one batch gives: the same bytes and the same store.
pub proof fn lemma_serve_frames_in_batches(
    store: StoreModel,
    first: Seq<Seq<Seq<u8>>>,
    second: Seq<Seq<Seq<u8>>>,
    now_ms: u64,
)
    ensures
        serve_frames(store, first + second, now_ms) == (Served {
            output: serve_frames(store, first, now_ms).output + serve_frames(
                serve_frames(store, first, now_ms).store,
                second,
                now_ms,
            ).output,
            store: serve_frames(serve_frames(store, first, now_ms).store, second, now_ms).store,
        }),
    decreases second.len(),
{
    let middle = serve_frames(store, first, now_ms);
    if second.len() == 0 {
        assert(first + second =~= first);
        assert(middle.output + Seq::<u8>::empty() =~= middle.output);
    } else {
        let front = second.drop_last();
        lemma_serve_frames_in_batches(store, first, front, now_ms);
        assert((first + second).drop_last() =~= first + front);
        assert((first + second).last() == second.last());
        let before = serve_frames(middle.store, front, now_ms);
        let last = frame_reply(before.store, second.last(), now_ms);
        assert((middle.output + before.output) + last =~= middle.output + (before.output + last));
    }
}

/// What a connection answers does not depend on how its stream is cut: two
/// chunks served one after the other give the bytes and the store that their
/// concatenation gives when served at once, and leave the same decoder.
pub proof fn lemma_answers_ignore_chunking(
    decoder: DecoderState,
    store: StoreModel,
    a: Seq<u8>,
    b: Seq<u8>,
    now_ms: u64,
)
    ensures
        ({
            let whole = serve_frames(store, feed(decoder, a + b).frames, now_ms);
            let first = serve_frames(store, feed(decoder, a).frames, now_ms);
            let second = serve_frames(
                first.store,
                feed(feed(decoder, a).state, b).frames,
                now_ms,
            );
            &&& whole.output == first.output + second.output
            &&& whole.store == second.store
            &&& feed(decoder, a + b).state == feed(feed(decoder, a).state, b).state
        }),
{
    lemma_feed_split(decoder, a, b);
    lemma_serve_frames_in_batches(
        store,
        feed(decoder, a).frames,
        feed(feed(decoder, a).state, b).frames,
        now_ms,
    );
}

} // verus!
