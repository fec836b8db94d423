//! The incremental decoder: it keeps the bytes not yet consumed, a stack of what
//! it expects next and the parts of the command in progress, so that reading
//! resumes exactly where it stopped, however the stream is cut into chunks.

use vstd::prelude::*;
use vstd::slice::*;
use crate::bytes::{append_bytes, copy_range, find_crlf, first_crlf, lemma_scan_crlf, CR, LF};
use crate::decimal::parse_usize;
use crate::framing::{
    advance, bulk_headers, drain, feed, header, lemma_advance_consumes, lemma_step_consumes,
    payload, DecoderState, Header, Outcome, ParseState, Payload, ARRAY_MARKER, BULK_MARKER,
};
use crate::stream_chunking_service::{
    all_framed, frames_of, lemma_views_push, views, StreamChunkingService,
    StreamChunkingServiceError, StringCommand,
};

verus! {

/// A decoder for commands framed as arrays of bulk strings.
pub struct NewLineStreamChunkingService {
    buffer: Vec<u8>,
    state_stack: Vec<ParseState>,
    current_parts: Vec<Vec<u8>>,
}

impl View for NewLineStreamChunkingService {
    type V = DecoderState;

    /// What the decoder holds.
    closed spec fn view(&self) -> DecoderState {
        DecoderState {
            buffer: self.buffer@,
            stack: self.state_stack@,
            parts: views(self.current_parts@),
        }
    }
}

impl StreamChunkingService for NewLineStreamChunkingService {
    /// Between calls the decoder always expects something.
    closed spec fn well_formed(&self) -> bool {
        self.state_stack@.len() > 0
    }

    /// A decoder at the start of a stream: no bytes, no parts, an array header
    /// expected.
    fn new() -> (service: Self)
        ensures
            service@ == DecoderState::fresh(),
    {
        let mut state_stack: Vec<ParseState> = Vec::new();
        state_stack.push(ParseState::ArrayCount);
        let service = NewLineStreamChunkingService {
            buffer: Vec::new(),
            state_stack,
            current_parts: Vec::new(),
        };
        assert(service@.stack =~= seq![ParseState::ArrayCount]);
        assert(service@.parts =~= Seq::<Seq<u8>>::empty());
        service
    }

    /// Takes the next chunk and reads as far as the bytes allow. The commands
    /// completed are handed out in order. With none completed, the answer says
    /// whether more bytes are needed or the bytes at the front are malformed;
    /// malformed bytes behind a completed command show at the next call.
    fn next(&mut self, buffer: &[u8]) -> (r: Result<Vec<StringCommand>, StreamChunkingServiceError>)
        ensures
            final(self)@ == feed(old(self)@, buffer@).state,
            match r {
                Ok(commands) => commands@.len() > 0 && all_framed(commands@) && frames_of(
                    commands@,
                ) == feed(old(self)@, buffer@).frames,
                Err(StreamChunkingServiceError::InvalidFormat) => feed(
                    old(self)@,
                    buffer@,
                ).frames.len() == 0 && feed(old(self)@, buffer@).failed,
                Err(StreamChunkingServiceError::IncompleteCommand) => feed(
                    old(self)@,
                    buffer@,
                ).frames.len() == 0 && !feed(old(self)@, buffer@).failed,
            },
    {
        append_bytes(&mut self.buffer, buffer);
        let ghost start = self@;
        assert(start == old(self)@.receive(buffer@));
        let mut commands: Vec<StringCommand> = Vec::new();
        let mut failed = false;
        assert(frames_of(commands@) =~= Seq::<Seq<Seq<u8>>>::empty());
        loop
            invariant_except_break
                !failed,
                self.well_formed(),
                all_framed(commands@),
                drain(start).frames == frames_of(commands@) + drain(self@).frames,
                drain(start).state == drain(self@).state,
                drain(start).failed == drain(self@).failed,
            ensures
                self.well_formed(),
                all_framed(commands@),
                drain(start).frames == frames_of(commands@),
                drain(start).state == self@,
                drain(start).failed == failed,
            decreases self@.buffer.len(),
        {
            let ghost before = self@;
            proof {
                lemma_advance_consumes(before);
            }
            match self.parse_next() {
                Ok(Some(command)) => {
                    proof {
                        let rest = drain(self@);
                        assert(frames_of(commands@.push(command)) =~= frames_of(commands@).push(
                            command@,
                        ));
                        assert(frames_of(commands@) + (seq![command@] + rest.frames) =~= frames_of(
                            commands@,
                        ).push(command@) + rest.frames);
                    }
                    commands.push(command);
                },
                Ok(None) => {
                    proof {
                        assert(frames_of(commands@) + Seq::<Seq<Seq<u8>>>::empty() =~= frames_of(
                            commands@,
                        ));
                    }
                    break ;
                },
                Err(_) => {
                    proof {
                        assert(frames_of(commands@) + Seq::<Seq<Seq<u8>>>::empty() =~= frames_of(
                            commands@,
                        ));
                    }
                    failed = true;
                    break ;
                },
            }
        }
        if commands.len() > 0 {
            Ok(commands)
        } else if failed {
            Err(StreamChunkingServiceError::InvalidFormat)
        } else {
            Err(StreamChunkingServiceError::IncompleteCommand)
        }
    }
}

impl NewLineStreamChunkingService {
    /// Reads up to the next command: steps until a command is complete, more
    /// bytes are needed, or the bytes at the front are malformed.
    pub fn parse_next(&mut self) -> (r: Result<Option<StringCommand>, StreamChunkingServiceError>)
        requires
            old(self).well_formed(),
        ensures
            final(self).well_formed(),
            final(self)@ == advance(old(self)@).state,
            match advance(old(self)@).outcome {
                Outcome::Frame(frame) => r matches Ok(Some(command)) && command@ == frame
                    && command.framed(),
                Outcome::Suspended => r matches Ok(None),
                Outcome::Failed => r == Err::<Option<StringCommand>, StreamChunkingServiceError>(
                    StreamChunkingServiceError::InvalidFormat,
                ),
            },
    {
        loop
            invariant
                self.well_formed(),
                advance(self@) == advance(old(self)@),
            decreases self@.buffer.len(),
        {
            let ghost before = self@;
            proof {
                lemma_step_consumes(before);
            }
            let top = self.state_stack[self.state_stack.len() - 1];
            match top {
                ParseState::ArrayCount => {
                    let count = match self.read_integer(ARRAY_MARKER) {
                        Ok(Some(n)) => n,
                        Ok(None) => {
                            return Ok(None);
                        },
                        Err(e) => {
                            return Err(e);
                        },
                    };
                    self.state_stack.pop();
                    let ghost below = self.state_stack@;
                    let ghost rest = self.buffer@;
                    let mut pushed: usize = 0;
                    while pushed < count
                        invariant
                            pushed <= count,
                            self.state_stack@ == below + bulk_headers(pushed),
                            self.buffer@ == rest,
                            views(self.current_parts@) == before.parts,
                        decreases count - pushed,
                    {
                        self.state_stack.push(ParseState::BulkStringLength);
                        pushed += 1;
                        assert(self.state_stack@ =~= below + bulk_headers(pushed));
                    }
                    assert(below == before.stack.drop_last());
                },
                ParseState::BulkStringLength => {
                    let length = match self.read_integer(BULK_MARKER) {
                        Ok(Some(n)) => n,
                        Ok(None) => {
                            return Ok(None);
                        },
                        Err(e) => {
                            return Err(e);
                        },
                    };
                    self.state_stack.pop();
                    self.state_stack.push(ParseState::BulkStringData(length));
                },
                ParseState::BulkStringData(length) => {
                    let data = match self.read_bulk_string(length) {
                        Ok(Some(data)) => data,
                        Ok(None) => {
                            return Ok(None);
                        },
                        Err(e) => {
                            return Err(e);
                        },
                    };
                    proof {
                        lemma_views_push(self.current_parts@, data);
                    }
                    self.current_parts.push(data);
                    self.state_stack.pop();
                },
            }
            if self.state_stack.len() == 0 {
                self.state_stack.push(ParseState::ArrayCount);
                assert(self.state_stack@ =~= seq![ParseState::ArrayCount]);
                if self.current_parts.len() > 0 {
                    let mut parts: Vec<Vec<u8>> = Vec::new();
                    core::mem::swap(&mut parts, &mut self.current_parts);
                    assert(views(self.current_parts@) =~= Seq::<Seq<u8>>::empty());
                    assert(views(parts@).len() == parts@.len());
                    return Ok(Some(StringCommand::build(parts)));
                }
                assert(views(self.current_parts@) =~= Seq::<Seq<u8>>::empty());
            }
        }
    }

    /// Reads a header at the front of the buffer: the marker `prefix`, an
    /// unsigned decimal field and a line terminator. A header that is there is
    /// consumed; otherwise the buffer stays as it is.
    pub fn read_integer(&mut self, prefix: u8) -> (r: Result<
        Option<usize>,
        StreamChunkingServiceError,
    >)
        ensures
            final(self).well_formed() == old(self).well_formed(),
            match header(old(self)@.buffer, prefix) {
                Header::NeedMore => r == Ok::<Option<usize>, StreamChunkingServiceError>(None)
                    && final(self)@ == old(self)@,
                Header::Malformed => r == Err::<Option<usize>, StreamChunkingServiceError>(
                    StreamChunkingServiceError::InvalidFormat,
                ) && final(self)@ == old(self)@,
                Header::Value { value, used } => r == Ok::<
                    Option<usize>,
                    StreamChunkingServiceError,
                >(Some(value)) && final(self)@ == (DecoderState {
                    buffer: old(self)@.buffer.skip(used),
                    ..old(self)@
                }),
            },
    {
        if self.buffer.len() == 0 {
            return Ok(None);
        }
        if self.buffer[0] != prefix {
            return Err(StreamChunkingServiceError::InvalidFormat);
        }
        let crlf_pos = match self.find_crlf() {
            Some(pos) => pos,
            None => {
                return Ok(None);
            },
        };
        proof {
            lemma_scan_crlf(self.buffer@, 0);
        }
        if crlf_pos < 1 {
            return Err(StreamChunkingServiceError::InvalidFormat);
        }
        let field = slice_subrange(self.buffer.as_slice(), 1, crlf_pos);
        let num = match parse_usize(field) {
            Some(n) => n,
            None => {
                return Err(StreamChunkingServiceError::InvalidFormat);
            },
        };
        let rest = self.buffer.split_off(crlf_pos + 2);
        assert(rest@ == old(self)@.buffer.skip(crlf_pos + 2));
        self.buffer = rest;
        Ok(Some(num))
    }

    /// Reads a payload of `length` bytes and its line terminator at the front of
    /// the buffer. A payload that is there is consumed and handed out; otherwise
    /// the buffer stays as it is.
    pub fn read_bulk_string(&mut self, length: usize) -> (r: Result<
        Option<Vec<u8>>,
        StreamChunkingServiceError,
    >)
        ensures
            final(self).well_formed() == old(self).well_formed(),
            match payload(old(self)@.buffer, length) {
                Payload::NeedMore => r matches Ok(None) && final(self)@ == old(self)@,
                Payload::Malformed => r matches Err(StreamChunkingServiceError::InvalidFormat)
                    && final(self)@ == old(self)@,
                Payload::Data { data, used } => r matches Ok(Some(bytes)) && bytes@ == data
                    && final(self)@ == (DecoderState {
                    buffer: old(self)@.buffer.skip(used),
                    ..old(self)@
                }),
            },
    {
        let held = self.buffer.len();
        if held < 2 || held - 2 < length {
            return Ok(None);
        }
        if self.buffer[length] != CR || self.buffer[length + 1] != LF {
            return Err(StreamChunkingServiceError::InvalidFormat);
        }
        let bytes = copy_range(self.buffer.as_slice(), 0, length);
        let rest = self.buffer.split_off(length + 2);
        assert(rest@ == old(self)@.buffer.skip(length + 2));
        assert(bytes@ == old(self)@.buffer.take(length as int));
        self.buffer = rest;
        Ok(Some(bytes))
    }

    /// The index of the first line terminator in the buffer.
    pub fn find_crlf(&self) -> (r: Option<usize>)
        ensures
            match r {
                Some(p) => first_crlf(self@.buffer) == Some(p as int),
                None => first_crlf(self@.buffer) is None,
            },
    {
        find_crlf(self.buffer.as_slice())
    }
}

} // verus!
