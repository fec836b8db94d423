//! The framing grammar as mathematics: what a decoder holds, what one step of
//! reading does to it, and what a whole chunk of input yields.
//!
//! A command on the wire is an array header `*<count>\r\n` followed by `count`
//! bulk strings, each a header `$<length>\r\n`, `length` bytes of payload and a
//! line terminator.

use vstd::prelude::*;
use crate::bytes::{
    crlf, first_crlf, lemma_first_crlf_extend, lemma_line_found, lemma_scan_crlf, CR, LF,
};
use crate::decimal::{
    decimal, lemma_decimal, lemma_digits_hold_no_terminator, lemma_unsigned_field_of_decimal,
    usize_field,
};

verus! {

/// The byte that opens an array header.
pub const ARRAY_MARKER: u8 = 42;

/// The byte that opens a bulk string header.
pub const BULK_MARKER: u8 = 36;

/// What the decoder expects next.
#[derive(Debug, Clone, Copy, PartialEq, Eq, Structural)]
pub enum ParseState {
    /// The header of an array, with the number of parts.
    ArrayCount,
    /// The header of a bulk string, with the payload's length.
    BulkStringLength,
    /// The payload of a bulk string of the given length, and its terminator.
    BulkStringData(usize),
}

/// What a decoder holds between two calls.
pub struct DecoderState {
    /// The bytes received and not yet consumed.
    pub buffer: Seq<u8>,
    /// What is expected, the next item last.
    pub stack: Seq<ParseState>,
    /// The parts read so far of the command in progress.
    pub parts: Seq<Seq<u8>>,
}

impl DecoderState {
    /// A decoder at the start of a stream.
    pub open spec fn fresh() -> DecoderState {
        DecoderState {
            buffer: Seq::empty(),
            stack: seq![ParseState::ArrayCount],
            parts: Seq::empty(),
        }
    }

    /// The same decoder with `input` appended to its unconsumed bytes.
    pub open spec fn receive(self, input: Seq<u8>) -> DecoderState {
        DecoderState { buffer: self.buffer + input, ..self }
    }
}

/// What reading a header at the front of the buffer gives.
pub enum Header {
    /// The header is not complete yet.
    NeedMore,
    /// The bytes cannot be a header of the wanted kind.
    Malformed,
    /// A header with this number, taking up this many bytes.
    Value { value: usize, used: int },
}

/// Reads a header at the front of `buffer`: the marker, an unsigned decimal
/// field, a line terminator. A wrong marker is malformed at once; with the right
/// marker the header is awaited until a terminator is there.
pub open spec fn header(buffer: Seq<u8>, marker: u8) -> Header {
    if buffer.len() == 0 {
        Header::NeedMore
    } else if buffer[0] != marker {
        Header::Malformed
    } else {
        match first_crlf(buffer) {
            None => Header::NeedMore,
            Some(p) => if p < 1 {
                Header::Malformed
            } else {
                match usize_field(buffer.subrange(1, p)) {
                    Some(value) => Header::Value { value, used: p + 2 },
                    None => Header::Malformed,
                }
            },
        }
    }
}

/// What reading a payload at the front of the buffer gives.
pub enum Payload {
    /// The payload and its terminator are not complete yet.
    NeedMore,
    /// The payload is not followed by a line terminator.
    Malformed,
    /// The payload, taking up this many bytes with its terminator.
    Data { data: Seq<u8>, used: int },
}

/// Reads a payload of `length` bytes and its line terminator at the front of
/// `buffer`.
pub open spec fn payload(buffer: Seq<u8>, length: usize) -> Payload {
    if buffer.len() < length + 2 {
        Payload::NeedMore
    } else if buffer[length as int] != CR || buffer[length + 1] != LF {
        Payload::Malformed
    } else {
        Payload::Data { data: buffer.take(length as int), used: length + 2 }
    }
}

/// What one step of the decoder does.
pub enum Step {
    /// More bytes are needed; nothing changes.
    Suspend,
    /// The bytes at the front are malformed; nothing changes.
    Invalid,
    /// An item was consumed; the decoder goes on from the given state.
    Advance(DecoderState),
    /// An item was consumed and completed the given command.
    Emit(Seq<Seq<u8>>, DecoderState),
}

/// `count` expectations of a bulk string header.
pub open spec fn bulk_headers(count: usize) -> Seq<ParseState> {
    Seq::new(count as nat, |i: int| ParseState::BulkStringLength)
}

/// Ends a step that consumed an item. While something is still expected the
/// decoder goes on. Once nothing is, the parts read make up a command and the
/// next array header is expected; an array of no parts makes up no command.
pub open spec fn settle(buffer: Seq<u8>, stack: Seq<ParseState>, parts: Seq<Seq<u8>>) -> Step {
    if stack.len() > 0 {
        Step::Advance(DecoderState { buffer, stack, parts })
    } else if parts.len() == 0 {
        Step::Advance(DecoderState { buffer, stack: seq![ParseState::ArrayCount], parts })
    } else {
        Step::Emit(
            parts,
            DecoderState { buffer, stack: seq![ParseState::ArrayCount], parts: Seq::empty() },
        )
    }
}

/// One step: read the item that is expected next, if the buffer holds it whole.
pub open spec fn step(s: DecoderState) -> Step {
    if s.stack.len() == 0 {
        Step::Suspend
    } else {
        let below = s.stack.drop_last();
        match s.stack.last() {
            ParseState::ArrayCount => match header(s.buffer, ARRAY_MARKER) {
                Header::NeedMore => Step::Suspend,
                Header::Malformed => Step::Invalid,
                Header::Value { value, used } => settle(
                    s.buffer.skip(used),
                    below + bulk_headers(value),
                    s.parts,
                ),
            },
            ParseState::BulkStringLength => match header(s.buffer, BULK_MARKER) {
                Header::NeedMore => Step::Suspend,
                Header::Malformed => Step::Invalid,
                Header::Value { value, used } => settle(
                    s.buffer.skip(used),
                    below.push(ParseState::BulkStringData(value)),
                    s.parts,
                ),
            },
            ParseState::BulkStringData(length) => match payload(s.buffer, length) {
                Payload::NeedMore => Step::Suspend,
                Payload::Malformed => Step::Invalid,
                Payload::Data { data, used } => settle(
                    s.buffer.skip(used),
                    below,
                    s.parts.push(data),
                ),
            },
        }
    }
}

/// How an attempt to read up to the next command ended.
pub enum Outcome {
    /// A command was completed.
    Frame(Seq<Seq<u8>>),
    /// More bytes are needed.
    Suspended,
    /// The bytes at the front are malformed.
    Failed,
}

/// Where an attempt to read up to the next command left the decoder, and how it
/// ended.
pub struct Progress {
    pub state: DecoderState,
    pub outcome: Outcome,
}

/// Steps until a command is complete, more bytes are needed or the bytes are
/// malformed.
pub open spec fn advance(s: DecoderState) -> Progress
    decreases s.buffer.len(),
{
    match step(s) {
        Step::Suspend => Progress { state: s, outcome: Outcome::Suspended },
        Step::Invalid => Progress { state: s, outcome: Outcome::Failed },
        Step::Emit(frame, t) => Progress { state: t, outcome: Outcome::Frame(frame) },
        Step::Advance(t) => if t.buffer.len() < s.buffer.len() {
            advance(t)
        } else {
            Progress { state: s, outcome: Outcome::Suspended }
        },
    }
}

/// What the decoder makes of the bytes it holds.
pub struct Decoded {
    /// The commands completed, in order.
    pub frames: Seq<Seq<Seq<u8>>>,
    /// The decoder afterwards.
    pub state: DecoderState,
    /// True when reading stopped at malformed bytes, false when it stopped for
    /// want of bytes.
    pub failed: bool,
}

/// Reads commands until more bytes are needed or the bytes are malformed.
pub open spec fn drain(s: DecoderState) -> Decoded
    decreases s.buffer.len(),
{
    let p = advance(s);
    match p.outcome {
        Outcome::Frame(frame) => if p.state.buffer.len() < s.buffer.len() {
            let rest = drain(p.state);
            Decoded { frames: seq![frame] + rest.frames, state: rest.state, failed: rest.failed }
        } else {
            Decoded { frames: Seq::empty(), state: s, failed: false }
        },
        Outcome::Suspended => Decoded { frames: Seq::empty(), state: p.state, failed: false },
        Outcome::Failed => Decoded { frames: Seq::empty(), state: p.state, failed: true },
    }
}

/// What one chunk of input yields: the decoder receives it and reads as far as
/// it can.
pub open spec fn feed(s: DecoderState, input: Seq<u8>) -> Decoded {
    drain(s.receive(input))
}

/// What a sequence of chunks yields, fed one after the other.
pub open spec fn feed_chunks(s: DecoderState, chunks: Seq<Seq<u8>>) -> Decoded
    decreases chunks.len(),
{
    if chunks.len() == 0 {
        Decoded { frames: Seq::empty(), state: s, failed: false }
    } else {
        let before = feed_chunks(s, chunks.drop_last());
        let last = feed(before.state, chunks.last());
        Decoded { frames: before.frames + last.frames, state: last.state, failed: last.failed }
    }
}

/// The stream that a sequence of chunks carries.
pub open spec fn concat(chunks: Seq<Seq<u8>>) -> Seq<u8>
    decreases chunks.len(),
{
    if chunks.len() == 0 {
        Seq::empty()
    } else {
        concat(chunks.drop_last()) + chunks.last()
    }
}

/// The chunks that deliver `stream` one byte at a time.
pub open spec fn bytewise(stream: Seq<u8>) -> Seq<Seq<u8>> {
    Seq::new(stream.len(), |i: int| seq![stream[i]])
}

/// A header that was read takes up at least three bytes and no more than the
/// buffer holds.
pub proof fn lemma_header_used(buffer: Seq<u8>, marker: u8)
    ensures
        header(buffer, marker) matches Header::Value { value, used } ==> 3 <= used <= buffer.len(),
{
    lemma_scan_crlf(buffer, 0);
}

/// A header that was read stays as it is when bytes arrive behind it.
pub proof fn lemma_header_extend(buffer: Seq<u8>, extra: Seq<u8>, marker: u8)
    requires
        header(buffer, marker) is Value,
    ensures
        header(buffer + extra, marker) == header(buffer, marker),
{
    lemma_scan_crlf(buffer, 0);
    lemma_first_crlf_extend(buffer, extra);
    let p = first_crlf(buffer)->0;
    assert((buffer + extra).subrange(1, p) == buffer.subrange(1, p));
    assert((buffer + extra)[0] == buffer[0]);
}

/// A payload that was read stays as it is when bytes arrive behind it.
pub proof fn lemma_payload_extend(buffer: Seq<u8>, extra: Seq<u8>, length: usize)
    requires
        payload(buffer, length) is Data,
    ensures
        payload(buffer + extra, length) == payload(buffer, length),
{
    let longer = buffer + extra;
    assert(longer[length as int] == buffer[length as int]);
    assert(longer[length + 1] == buffer[length + 1]);
    assert(longer.take(length as int) == buffer.take(length as int));
}

/// A step that consumed an item left fewer bytes in the buffer, and something
/// is expected afterwards.
pub proof fn lemma_step_consumes(s: DecoderState)
    ensures
        step(s) matches Step::Advance(t) ==> t.buffer.len() < s.buffer.len() && t.stack.len() > 0,
        step(s) matches Step::Emit(frame, t) ==> t.buffer.len() < s.buffer.len() && t.stack.len()
            > 0 && frame.len() > 0,
{
    lemma_header_used(s.buffer, ARRAY_MARKER);
    lemma_header_used(s.buffer, BULK_MARKER);
}

/// A step that consumed an item does the same when bytes arrive behind what
/// the buffer held, and leaves them behind what it left.
pub proof fn lemma_step_extend(s: DecoderState, extra: Seq<u8>)
    ensures
        step(s) matches Step::Advance(t) ==> step(s.receive(extra)) == Step::Advance(
            t.receive(extra),
        ),
        step(s) matches Step::Emit(frame, t) ==> step(s.receive(extra)) == Step::Emit(
            frame,
            t.receive(extra),
        ),
{
    if s.stack.len() > 0 {
        match s.stack.last() {
            ParseState::ArrayCount => {
                if let Header::Value { value, used } = header(s.buffer, ARRAY_MARKER) {
                    lemma_header_extend(s.buffer, extra, ARRAY_MARKER);
                    lemma_header_used(s.buffer, ARRAY_MARKER);
                    assert((s.buffer + extra).skip(used) == s.buffer.skip(used) + extra);
                }
            },
            ParseState::BulkStringLength => {
                if let Header::Value { value, used } = header(s.buffer, BULK_MARKER) {
                    lemma_header_extend(s.buffer, extra, BULK_MARKER);
                    lemma_header_used(s.buffer, BULK_MARKER);
                    assert((s.buffer + extra).skip(used) == s.buffer.skip(used) + extra);
                }
            },
            ParseState::BulkStringData(length) => {
                if let Payload::Data { data, used } = payload(s.buffer, length) {
                    lemma_payload_extend(s.buffer, extra, length);
                    assert((s.buffer + extra).skip(used) == s.buffer.skip(used) + extra);
                }
            },
        }
    }
}

/// Reading up to the next command never lengthens the buffer, shortens it when
/// a command was completed, and leaves something expected if something was.
pub proof fn lemma_advance_consumes(s: DecoderState)
    ensures
        advance(s).state.buffer.len() <= s.buffer.len(),
        advance(s).outcome matches Outcome::Frame(frame) ==> advance(s).state.buffer.len()
            < s.buffer.len() && frame.len() > 0,
        s.stack.len() > 0 ==> advance(s).state.stack.len() > 0,
    decreases s.buffer.len(),
{
    lemma_step_consumes(s);
    if let Step::Advance(t) = step(s) {
        lemma_advance_consumes(t);
    }
}

/// Where reading stopped without a command, reading again stops at once in the
/// same way.
pub proof fn lemma_advance_stops(s: DecoderState)
    ensures
        !(advance(s).outcome is Frame) ==> advance(advance(s).state) == advance(s),
    decreases s.buffer.len(),
{
    lemma_step_consumes(s);
    if let Step::Advance(t) = step(s) {
        lemma_advance_stops(t);
    }
}

/// Bytes that arrive behind the buffer do not change a command that was
/// completed without them; where none was, reading goes on from where it
/// stopped.
pub proof fn lemma_advance_extend(s: DecoderState, extra: Seq<u8>)
    ensures
        advance(s).outcome is Frame ==> advance(s.receive(extra)) == (Progress {
            state: advance(s).state.receive(extra),
            outcome: advance(s).outcome,
        }),
        !(advance(s).outcome is Frame) ==> advance(s.receive(extra)) == advance(
            advance(s).state.receive(extra),
        ),
    decreases s.buffer.len(),
{
    lemma_step_consumes(s);
    lemma_step_extend(s, extra);
    lemma_step_consumes(s.receive(extra));
    if let Step::Advance(t) = step(s) {
        lemma_advance_extend(t, extra);
    }
}

/// Reading all commands never lengthens the buffer; every command read has at
/// least one part; and where reading stopped it would stop again at once.
pub proof fn lemma_drain_settles(s: DecoderState)
    ensures
        drain(s).state.buffer.len() <= s.buffer.len(),
        forall|i: int| 0 <= i < drain(s).frames.len() ==> (#[trigger] drain(s).frames[i]).len() > 0,
        s.stack.len() > 0 ==> drain(s).state.stack.len() > 0,
        drain(drain(s).state) == (Decoded {
            frames: Seq::empty(),
            state: drain(s).state,
            failed: drain(s).failed,
        }),
    decreases s.buffer.len(),
{
    lemma_advance_consumes(s);
    lemma_advance_stops(s);
    let p = advance(s);
    if let Outcome::Frame(frame) = p.outcome {
        lemma_drain_settles(p.state);
        let rest = drain(p.state);
        assert forall|i: int| 0 <= i < drain(s).frames.len() implies (#[trigger] drain(
            s,
        ).frames[i]).len() > 0 by {
            if i > 0 {
                assert(drain(s).frames[i] == rest.frames[i - 1]);
            }
        }
    } else {
        lemma_advance_consumes(p.state);
    }
}

/// Two chunks yield what their concatenation yields: the same commands in the
/// same order, and the same decoder afterwards.
pub proof fn lemma_feed_split(s: DecoderState, a: Seq<u8>, b: Seq<u8>)
    ensures
        feed(s, a + b) == (Decoded {
            frames: feed(s, a).frames + feed(feed(s, a).state, b).frames,
            state: feed(feed(s, a).state, b).state,
            failed: feed(feed(s, a).state, b).failed,
        }),
{
    assert(s.receive(a + b) == s.receive(a).receive(b)) by {
        assert(s.buffer + (a + b) == (s.buffer + a) + b);
    }
    lemma_drain_extend(s.receive(a), b);
}

/// Bytes that arrive behind the buffer add to what reading yields: first the
/// commands that were complete without them, then those that they complete.
pub proof fn lemma_drain_extend(s: DecoderState, extra: Seq<u8>)
    ensures
        drain(s.receive(extra)) == (Decoded {
            frames: drain(s).frames + drain(drain(s).state.receive(extra)).frames,
            state: drain(drain(s).state.receive(extra)).state,
            failed: drain(drain(s).state.receive(extra)).failed,
        }),
    decreases s.buffer.len(),
{
    lemma_advance_consumes(s);
    lemma_advance_extend(s, extra);
    lemma_advance_consumes(s.receive(extra));
    let p = advance(s);
    let later = drain(drain(s).state.receive(extra));
    match p.outcome {
        Outcome::Frame(frame) => {
            lemma_drain_extend(p.state, extra);
            let rest = drain(p.state);
            assert(seq![frame] + (rest.frames + later.frames) == (seq![frame] + rest.frames)
                + later.frames);
        },
        _ => {
            lemma_advance_consumes(p.state.receive(extra));
            assert(drain(s.receive(extra)) == drain(p.state.receive(extra)));
            assert(Seq::<Seq<Seq<u8>>>::empty() + later.frames == later.frames);
        },
    }
}

/// However a stream is cut into chunks, the chunks fed one after the other
/// yield what the whole stream yields when fed at once: the same commands in
/// the same order, and the same decoder afterwards.
pub proof fn lemma_fragmentation_invariant(s: DecoderState, chunks: Seq<Seq<u8>>)
    requires
        chunks.len() > 0,
    ensures
        feed_chunks(s, chunks) == feed(s, concat(chunks)),
    decreases chunks.len(),
{
    let front = chunks.drop_last();
    let before = feed_chunks(s, front);
    let last = feed(before.state, chunks.last());
    assert(feed_chunks(s, chunks) == (Decoded {
        frames: before.frames + last.frames,
        state: last.state,
        failed: last.failed,
    }));
    if front.len() == 0 {
        assert(concat(front) == Seq::<u8>::empty());
        assert(concat(chunks) == chunks.last());
        assert(Seq::<Seq<Seq<u8>>>::empty() + last.frames == last.frames);
    } else {
        lemma_fragmentation_invariant(s, front);
        lemma_feed_split(s, concat(front), chunks.last());
    }
}

/// The chunks of a byte-by-byte delivery carry the stream.
pub proof fn lemma_concat_bytewise(stream: Seq<u8>)
    ensures
        concat(bytewise(stream)) == stream,
    decreases stream.len(),
{
    if stream.len() > 0 {
        let front = stream.drop_last();
        lemma_concat_bytewise(front);
        assert(bytewise(stream).drop_last() == bytewise(front));
        assert(bytewise(stream).last() == seq![stream.last()]);
        assert(front + seq![stream.last()] == stream);
    }
}

/// A stream delivered one byte at a time yields what it yields when fed at
/// once.
pub proof fn lemma_bytewise_delivery(s: DecoderState, stream: Seq<u8>)
    requires
        stream.len() > 0,
    ensures
        feed_chunks(s, bytewise(stream)) == feed(s, stream),
{
    lemma_concat_bytewise(stream);
    lemma_fragmentation_invariant(s, bytewise(stream));
}

/// Malformed bytes stay malformed whatever arrives behind them.
pub proof fn lemma_invalid_step_extend(s: DecoderState, extra: Seq<u8>)
    requires
        step(s) is Invalid,
    ensures
        step(s.receive(extra)) is Invalid,
{
    let longer = s.buffer + extra;
    lemma_scan_crlf(s.buffer, 0);
    match s.stack.last() {
        ParseState::ArrayCount => {
            assert(longer[0] == s.buffer[0]);
            if first_crlf(s.buffer) is Some {
                lemma_first_crlf_extend(s.buffer, extra);
                let p = first_crlf(s.buffer)->0;
                if p >= 1 {
                    assert(longer.subrange(1, p) == s.buffer.subrange(1, p));
                }
            }
        },
        ParseState::BulkStringLength => {
            assert(longer[0] == s.buffer[0]);
            if first_crlf(s.buffer) is Some {
                lemma_first_crlf_extend(s.buffer, extra);
                let p = first_crlf(s.buffer)->0;
                if p >= 1 {
                    assert(longer.subrange(1, p) == s.buffer.subrange(1, p));
                }
            }
        },
        ParseState::BulkStringData(length) => {
            assert(longer[length as int] == s.buffer[length as int]);
            assert(longer[length + 1] == s.buffer[length + 1]);
        },
    }
}

/// Where reading up to the next command stopped at malformed bytes, the next
/// step is one that finds them malformed.
pub proof fn lemma_advance_fails_at_invalid_step(s: DecoderState)
    ensures
        advance(s).outcome is Failed ==> step(advance(s).state) is Invalid,
    decreases s.buffer.len(),
{
    lemma_step_consumes(s);
    if let Step::Advance(t) = step(s) {
        lemma_advance_fails_at_invalid_step(t);
    }
}

/// Where reading stopped at malformed bytes, the next step is one that finds
/// them malformed.
pub proof fn lemma_stops_at_invalid_step(s: DecoderState)
    requires
        drain(s).failed,
    ensures
        step(drain(s).state) is Invalid,
    decreases s.buffer.len(),
{
    lemma_advance_consumes(s);
    lemma_advance_fails_at_invalid_step(s);
    if let Outcome::Frame(frame) = advance(s).outcome {
        lemma_stops_at_invalid_step(advance(s).state);
    }
}

/// Malformed bytes are final: once reading has stopped at them, no further
/// input yields a command, and reading stops at them again.
pub proof fn lemma_failure_is_final(s: DecoderState, input: Seq<u8>, more: Seq<u8>)
    requires
        feed(s, input).failed,
    ensures
        feed(feed(s, input).state, more) == (Decoded {
            frames: Seq::empty(),
            state: feed(s, input).state.receive(more),
            failed: true,
        }),
{
    lemma_stops_at_invalid_step(s.receive(input));
    lemma_invalid_step_extend(feed(s, input).state, more);
}

/// The wire form of one part: a bulk string.
pub open spec fn bulk_wire(part: Seq<u8>) -> Seq<u8> {
    seq![BULK_MARKER] + decimal(part.len()) + crlf() + part + crlf()
}

/// The wire forms of the parts from index `from` on, one after the other.
pub open spec fn bulks_wire(parts: Seq<Seq<u8>>, from: int) -> Seq<u8>
    decreases parts.len() - from,
{
    if from < 0 || from >= parts.len() {
        Seq::empty()
    } else {
        bulk_wire(parts[from]) + bulks_wire(parts, from + 1)
    }
}

/// The wire form of a command: an array header with the number of parts, then
/// each part as a bulk string.
pub open spec fn command_wire(parts: Seq<Seq<u8>>) -> Seq<u8> {
    seq![ARRAY_MARKER] + decimal(parts.len()) + crlf() + bulks_wire(parts, 0)
}

/// The wire forms of the commands from index `from` on, one after the other.
pub open spec fn commands_wire(commands: Seq<Seq<Seq<u8>>>, from: int) -> Seq<u8>
    decreases commands.len() - from,
{
    if from < 0 || from >= commands.len() {
        Seq::empty()
    } else {
        command_wire(commands[from]) + commands_wire(commands, from + 1)
    }
}

/// True for the commands that can be sent: at least one part, and the number
/// of parts and the length of each fit a machine word.
pub open spec fn sendable(parts: Seq<Seq<u8>>) -> bool {
    &&& 0 < parts.len() <= usize::MAX
    &&& forall|i: int| 0 <= i < parts.len() ==> (#[trigger] parts[i]).len() <= usize::MAX
}

/// A decoder that expects an array header, with `buffer` to read.
pub open spec fn between_commands(buffer: Seq<u8>) -> DecoderState {
    DecoderState { buffer, stack: seq![ParseState::ArrayCount], parts: Seq::empty() }
}

/// A header of the given kind, written with its number, is read as that number
/// and leaves what follows it.
pub proof fn lemma_header_of_decimal(marker: u8, value: usize, tail: Seq<u8>)
    requires
        marker != CR,
    ensures
        header(seq![marker] + decimal(value as nat) + crlf() + tail, marker) == (Header::Value {
            value,
            used: decimal(value as nat).len() as int + 3,
        }),
        (seq![marker] + decimal(value as nat) + crlf() + tail).skip(
            decimal(value as nat).len() as int + 3,
        ) == tail,
{
    let digits = decimal(value as nat);
    lemma_decimal(value as nat);
    lemma_digits_hold_no_terminator(digits);
    lemma_unsigned_field_of_decimal(value as nat);
    lemma_line_found(marker, digits, tail);
}

/// With `from` parts of a command read and the rest of its wire form in the
/// buffer, the decoder completes exactly that command and leaves what follows.
pub proof fn lemma_read_parts(parts: Seq<Seq<u8>>, from: int, tail: Seq<u8>)
    requires
        sendable(parts),
        0 <= from < parts.len(),
    ensures
        advance(
            DecoderState {
                buffer: bulks_wire(parts, from) + tail,
                stack: bulk_headers((parts.len() - from) as usize),
                parts: parts.take(from),
            },
        ) == (Progress { state: between_commands(tail), outcome: Outcome::Frame(parts) }),
    decreases parts.len() - from,
{
    let left = (parts.len() - from) as usize;
    let part = parts[from];
    let rest = bulks_wire(parts, from + 1) + tail;
    let body = part + crlf() + rest;
    let s = DecoderState {
        buffer: bulks_wire(parts, from) + tail,
        stack: bulk_headers(left),
        parts: parts.take(from),
    };
    let length = part.len() as usize;
    assert(s.buffer =~= seq![BULK_MARKER] + decimal(part.len()) + crlf() + body);
    lemma_header_of_decimal(BULK_MARKER, length, body);
    let below = bulk_headers((left - 1) as usize);
    assert(s.stack.last() == ParseState::BulkStringLength);
    assert(s.stack.drop_last() =~= below);
    let s1 = DecoderState {
        buffer: body,
        stack: below.push(ParseState::BulkStringData(length)),
        parts: parts.take(from),
    };
    assert(step(s) == Step::Advance(s1));
    lemma_step_consumes(s);
    assert(body[length as int] == CR);
    assert(body[length as int + 1] == LF);
    assert(body.take(length as int) =~= part);
    assert(body.skip(length as int + 2) =~= rest);
    assert(s1.stack.drop_last() =~= below);
    assert(parts.take(from).push(part) =~= parts.take(from + 1));
    lemma_step_consumes(s1);
    assert(advance(s) == advance(s1));
    if from + 1 == parts.len() {
        assert(parts.take(from + 1) =~= parts);
        assert(rest =~= tail);
        assert(step(s1) == Step::Emit(parts, between_commands(tail)));
    } else {
        let s2 = DecoderState { buffer: rest, stack: below, parts: parts.take(from + 1) };
        assert(step(s1) == Step::Advance(s2));
        assert(advance(s1) == advance(s2));
        lemma_read_parts(parts, from + 1, tail);
    }
}

/// With the wire form of a command in the buffer, a decoder that expects an
/// array header completes exactly that command and leaves what follows.
pub proof fn lemma_read_command(parts: Seq<Seq<u8>>, tail: Seq<u8>)
    requires
        sendable(parts),
    ensures
        advance(between_commands(command_wire(parts) + tail)) == (Progress {
            state: between_commands(tail),
            outcome: Outcome::Frame(parts),
        }),
{
    let body = bulks_wire(parts, 0) + tail;
    let s = between_commands(command_wire(parts) + tail);
    let count = parts.len() as usize;
    assert(s.buffer =~= seq![ARRAY_MARKER] + decimal(parts.len()) + crlf() + body);
    lemma_header_of_decimal(ARRAY_MARKER, count, body);
    assert(s.stack.drop_last() + bulk_headers(count) =~= bulk_headers(count));
    let s1 = DecoderState { buffer: body, stack: bulk_headers(count), parts: Seq::empty() };
    assert(step(s) == Step::Advance(s1));
    lemma_step_consumes(s);
    assert(advance(s) == advance(s1));
    assert(parts.take(0) =~= Seq::<Seq<u8>>::empty());
    lemma_read_parts(parts, 0, tail);
}

/// With the wire forms of commands in the buffer, a decoder that expects an
/// array header reads exactly those commands, in order, and then waits for
/// more.
pub proof fn lemma_read_commands(commands: Seq<Seq<Seq<u8>>>, from: int)
    requires
        0 <= from <= commands.len(),
        forall|i: int| 0 <= i < commands.len() ==> sendable(#[trigger] commands[i]),
    ensures
        drain(between_commands(commands_wire(commands, from))) == (Decoded {
            frames: commands.skip(from),
            state: DecoderState::fresh(),
            failed: false,
        }),
    decreases commands.len() - from,
{
    let s = between_commands(commands_wire(commands, from));
    if from == commands.len() {
        assert(s == DecoderState::fresh());
        assert(commands.skip(from) =~= Seq::<Seq<Seq<u8>>>::empty());
    } else {
        let tail = commands_wire(commands, from + 1);
        lemma_read_command(commands[from], tail);
        lemma_advance_consumes(s);
        lemma_read_commands(commands, from + 1);
        assert(seq![commands[from]] + commands.skip(from + 1) =~= commands.skip(from));
    }
}

/// Decoding undoes encoding: a fresh decoder that is fed the wire forms of
/// commands, one after the other, hands out exactly those commands, in order,
/// and is as fresh afterwards.
pub proof fn lemma_decode_encoded(commands: Seq<Seq<Seq<u8>>>)
    requires
        forall|i: int| 0 <= i < commands.len() ==> sendable(#[trigger] commands[i]),
    ensures
        feed(DecoderState::fresh(), commands_wire(commands, 0)) == (Decoded {
            frames: commands,
            state: DecoderState::fresh(),
            failed: false,
        }),
{
    let stream = commands_wire(commands, 0);
    assert(DecoderState::fresh().receive(stream) == between_commands(stream)) by {
        assert(Seq::<u8>::empty() + stream =~= stream);
    }
    lemma_read_commands(commands, 0);
    assert(commands.skip(0) =~= commands);
}

/// However the wire forms of commands are cut into chunks, a fresh decoder
/// that is fed the chunks one after the other hands out exactly those
/// commands, in order.
pub proof fn lemma_decode_encoded_in_chunks(commands: Seq<Seq<Seq<u8>>>, chunks: Seq<Seq<u8>>)
    requires
        forall|i: int| 0 <= i < commands.len() ==> sendable(#[trigger] commands[i]),
        chunks.len() > 0,
        concat(chunks) == commands_wire(commands, 0),
    ensures
        feed_chunks(DecoderState::fresh(), chunks) == (Decoded {
            frames: commands,
            state: DecoderState::fresh(),
            failed: false,
        }),
{
    lemma_fragmentation_invariant(DecoderState::fresh(), chunks);
    lemma_decode_encoded(commands);
}

} // verus!
