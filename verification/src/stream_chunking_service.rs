//! What a stream decoder hands out: framed commands, and the two signals with
//! which it answers when it has none to hand out.

use vstd::prelude::*;
use vstd::string::*;
use vstd::slice::*;
use vstd::utf8::*;
use crate::bytes::{
    append_bytes, copy_range, crlf, find_crlf, first_crlf, has_crlf, lemma_scan_crlf,
    lemma_terminator_found, to_vec, CR, LF,
};

verus! {

/// Why a call of a decoder handed out no command.
#[derive(Debug, Clone, Copy, PartialEq, Eq, Structural)]
pub enum StreamChunkingServiceError {
    /// The bytes seen so far end inside a command: more are needed. Not a fault.
    IncompleteCommand,
    /// The bytes seen so far cannot start any command. Fatal for the stream.
    InvalidFormat,
}

impl StreamChunkingServiceError {
    /// A short description of the signal.
    pub fn to_string(&self) -> (s: String)
        ensures
            s@ == (match *self {
                StreamChunkingServiceError::IncompleteCommand => "Incomplete command"@,
                StreamChunkingServiceError::InvalidFormat => "Invalid format"@,
            }),
    {
        match self {
            StreamChunkingServiceError::IncompleteCommand => String::from_str("Incomplete command"),
            StreamChunkingServiceError::InvalidFormat => String::from_str("Invalid format"),
        }
    }
}

/// The byte strings that a sequence of vectors holds.
pub open spec fn views(parts: Seq<Vec<u8>>) -> Seq<Seq<u8>> {
    Seq::new(parts.len(), |i: int| parts[i]@)
}

/// Pushing a vector pushes its bytes.
pub proof fn lemma_views_push(parts: Seq<Vec<u8>>, part: Vec<u8>)
    ensures
        views(parts.push(part)) == views(parts).push(part@),
{
    assert(views(parts.push(part)) =~= views(parts).push(part@));
}

/// The textual form of a frame: each part followed by a line terminator.
pub open spec fn joined(parts: Seq<Seq<u8>>) -> Seq<u8>
    decreases parts.len(),
{
    if parts.len() == 0 {
        Seq::empty()
    } else {
        joined(parts.drop_last()) + parts.last() + crlf()
    }
}

/// The stretches of `s` between its line terminators, the last one being what
/// follows the last terminator.
pub open spec fn split_lines(s: Seq<u8>) -> Seq<Seq<u8>>
    decreases s.len(),
{
    match first_crlf(s) {
        Some(p) => if 0 <= p && p + 2 <= s.len() {
            seq![s.take(p)] + split_lines(s.skip(p + 2))
        } else {
            seq![s]
        },
        None => seq![s],
    }
}

/// The parts that a textual form denotes: its lines, where an empty stretch
/// behind the last terminator is no part.
pub open spec fn text_parts(s: Seq<u8>) -> Seq<Seq<u8>> {
    let lines = split_lines(s);
    if lines.len() > 1 && lines.last().len() == 0 {
        lines.drop_last()
    } else {
        lines
    }
}

/// A textual form always denotes at least one part.
pub proof fn lemma_text_parts_nonempty(s: Seq<u8>)
    ensures
        text_parts(s).len() > 0,
{
}

/// The textual form of a frame is its first part, a line terminator, and the
/// textual form of the parts that follow.
pub proof fn lemma_joined_front(parts: Seq<Seq<u8>>)
    requires
        parts.len() > 0,
    ensures
        joined(parts) == parts[0] + crlf() + joined(parts.skip(1)),
    decreases parts.len(),
{
    if parts.len() == 1 {
        assert(joined(parts.drop_last()) =~= Seq::<u8>::empty());
        assert(joined(parts.skip(1)) =~= Seq::<u8>::empty());
        assert(joined(parts) =~= parts[0] + crlf() + joined(parts.skip(1)));
    } else {
        let front = parts.drop_last();
        lemma_joined_front(front);
        assert(front.skip(1) =~= parts.skip(1).drop_last());
        assert(parts.skip(1).last() == parts.last());
        assert(front[0] == parts[0]);
        assert(joined(parts) =~= parts[0] + crlf() + joined(parts.skip(1)));
    }
}

/// The lines of the textual form of a frame are its parts, followed by the
/// empty stretch behind the last terminator.
pub proof fn lemma_split_joined(parts: Seq<Seq<u8>>)
    requires
        forall|i: int| 0 <= i < parts.len() ==> !has_crlf(#[trigger] parts[i]),
    ensures
        split_lines(joined(parts)) == parts.push(Seq::empty()),
    decreases parts.len(),
{
    if parts.len() == 0 {
        lemma_scan_crlf(joined(parts), 0);
        assert(split_lines(joined(parts)) =~= parts.push(Seq::empty()));
    } else {
        let rest = parts.skip(1);
        lemma_joined_front(parts);
        assert(!has_crlf(parts[0]));
        lemma_terminator_found(parts[0], joined(rest));
        assert forall|i: int| 0 <= i < rest.len() implies !has_crlf(#[trigger] rest[i]) by {
            assert(rest[i] == parts[i + 1]);
        }
        lemma_split_joined(rest);
        assert(seq![parts[0]] + rest.push(Seq::empty()) =~= parts.push(Seq::empty()));
    }
}

/// The textual form denotes the frame that it was written for: unless one of
/// its parts holds a line terminator, a frame is read back from its textual
/// form as it was.
pub proof fn lemma_text_parts_of_joined(parts: Seq<Seq<u8>>)
    requires
        parts.len() > 0,
        forall|i: int| 0 <= i < parts.len() ==> !has_crlf(#[trigger] parts[i]),
    ensures
        text_parts(joined(parts)) == parts,
{
    lemma_split_joined(parts);
    assert(parts.push(Seq::empty()).drop_last() =~= parts);
}

/// The text that `String::from_utf8_lossy` makes of a byte string.
pub uninterp spec fn lossy_text(bytes: Seq<u8>) -> Seq<char>;

/// The text that stands for a byte string: well-formed UTF-8 reads as it
/// stands, other bytes as `String::from_utf8_lossy` shows them.
pub open spec fn text_of(bytes: Seq<u8>) -> Seq<char> {
    if valid_utf8(bytes) {
        decode_utf8(bytes)
    } else {
        lossy_text(bytes)
    }
}

/// `String::from_utf8_lossy`: the text of a byte string. Well-formed UTF-8 is
/// decoded as it stands; what the call makes of other bytes is only named.
#[verifier::external_body]
pub(crate) fn decode_lossy(bytes: &Vec<u8>) -> (text: String)
    ensures
        text@ == lossy_text(bytes@),
        valid_utf8(bytes@) ==> text@ == decode_utf8(bytes@),
{
    String::from_utf8_lossy(bytes).into_owned()
}

/// Splits a byte string at its line terminators.
pub fn split_at_terminators(s: &[u8]) -> (lines: Vec<Vec<u8>>)
    ensures
        views(lines@) == split_lines(s@),
{
    let n = s.len();
    let mut lines: Vec<Vec<u8>> = Vec::new();
    let mut pos: usize = 0;
    assert(s@.skip(0) == s@);
    assert(views(lines@) =~= Seq::<Seq<u8>>::empty());
    loop
        invariant
            n == s@.len(),
            pos <= n,
            split_lines(s@) == views(lines@) + split_lines(s@.skip(pos as int)),
        decreases n - pos,
    {
        let rest = slice_subrange(s, pos, n);
        assert(rest@ == s@.skip(pos as int));
        match find_crlf(rest) {
            None => {
                let line = to_vec(rest);
                proof {
                    lemma_views_push(lines@, line);
                    assert(split_lines(rest@) == seq![rest@]);
                    assert(views(lines@) + seq![rest@] == views(lines@).push(line@));
                }
                lines.push(line);
                return lines;
            },
            Some(p) => {
                proof {
                    lemma_scan_crlf(rest@, 0);
                }
                let line = copy_range(rest, 0, p);
                proof {
                    lemma_views_push(lines@, line);
                    assert(rest@.take(p as int) == line@);
                    assert(rest@.skip(p + 2) == s@.skip(pos + p + 2));
                    assert(views(lines@) + (seq![line@] + split_lines(rest@.skip(p + 2))) == views(
                        lines@,
                    ).push(line@) + split_lines(rest@.skip(p + 2)));
                }
                lines.push(line);
                pos = pos + p + 2;
            },
        }
    }
}

/// Writes the textual form of a frame.
pub fn join_parts(parts: &Vec<Vec<u8>>) -> (out: Vec<u8>)
    ensures
        out@ == joined(views(parts@)),
{
    let mut out: Vec<u8> = Vec::new();
    let mut i: usize = 0;
    assert(views(parts@).take(0) =~= Seq::<Seq<u8>>::empty());
    while i < parts.len()
        invariant
            i <= parts@.len(),
            out@ == joined(views(parts@).take(i as int)),
        decreases parts.len() - i,
    {
        proof {
            let next = views(parts@).take(i + 1);
            assert(next.drop_last() == views(parts@).take(i as int));
            assert(next.last() == parts@[i as int]@);
        }
        append_bytes(&mut out, parts[i].as_slice());
        out.push(CR);
        out.push(LF);
        assert(out@ == joined(views(parts@).take(i as int)) + parts@[i as int]@ + crlf());
        i += 1;
    }
    assert(views(parts@).take(parts@.len() as int) == views(parts@));
    out
}

/// One framed command: the command's name followed by its arguments, each an
/// opaque byte string. A command always has at least one part. Beside its
/// parts a command holds a text: the text that it was made from, or, for a
/// command made from parts, their textual form.
#[derive(Debug)]
pub struct StringCommand {
    parts: Vec<Vec<u8>>,
    text: String,
}

impl View for StringCommand {
    type V = Seq<Seq<u8>>;

    /// The parts of the command, in order.
    closed spec fn view(&self) -> Seq<Seq<u8>> {
        views(self.parts@)
    }
}

impl StringCommand {
    #[verifier::type_invariant]
    spec fn well_formed(self) -> bool {
        &&& self.parts@.len() > 0
        &&& (self.text@ == text_of(joined(views(self.parts@))) || views(self.parts@)
            == text_parts(encode_utf8(self.text@)))
    }

    /// The text that the command holds.
    pub closed spec fn text(&self) -> Seq<char> {
        self.text@
    }

    /// True when the text that the command holds is the textual form of its
    /// parts: each part followed by a line terminator. So it is for every
    /// command made from parts.
    pub open spec fn framed(&self) -> bool {
        self.text() == text_of(joined(self@))
    }

    /// The command with the given parts; its text is their textual form.
    pub(crate) fn build(parts: Vec<Vec<u8>>) -> (command: Self)
        requires
            parts@.len() > 0,
        ensures
            command@ == views(parts@),
            command.framed(),
    {
        let wire = join_parts(&parts);
        let text = decode_lossy(&wire);
        StringCommand { parts, text }
    }

    /// The command that the text `s` denotes. Its text is `s` as given; its
    /// parts are the lines of `s`, where an empty stretch behind the last line
    /// terminator is no part.
    pub fn new(s: String) -> (command: Self)
        ensures
            command.text() == s@,
            command@ == text_parts(encode_utf8(s@)),
    {
        let bytes = s.as_str().as_bytes();
        let mut lines = split_at_terminators(bytes);
        let count = lines.len();
        proof {
            lemma_text_parts_nonempty(bytes@);
        }
        assert(views(lines@).len() == lines@.len());
        if count > 1 && lines[count - 1].len() == 0 {
            let ghost before = lines@;
            lines.pop();
            assert(views(lines@) =~= views(before).drop_last());
        }
        StringCommand { parts: lines, text: s }
    }

    /// The command with the given parts, if there is at least one; its text is
    /// their textual form.
    pub fn from_parts(parts: Vec<Vec<u8>>) -> (r: Option<Self>)
        ensures
            r is Some <==> parts@.len() > 0,
            r matches Some(command) ==> command@ == views(parts@) && command.framed(),
    {
        if parts.len() == 0 {
            None
        } else {
            Some(StringCommand::build(parts))
        }
    }

    /// The parts of the command: there is at least one.
    pub fn parts(&self) -> (parts: &Vec<Vec<u8>>)
        ensures
            views(parts@) == self@,
            parts@.len() > 0,
            self@.len() == parts@.len(),
    {
        proof {
            use_type_invariant(self);
        }
        &self.parts
    }

    /// The text that the command holds: for a command made from a text, that
    /// text unchanged.
    pub fn as_str(&self) -> (text: &str)
        ensures
            text@ == self.text(),
    {
        self.text.as_str()
    }

    /// The text that the command holds, as an owned string.
    pub fn to_string(&self) -> (text: String)
        ensures
            text@ == self.text(),
    {
        self.text.clone()
    }
}

/// The frames that a sequence of commands holds.
pub open spec fn frames_of(commands: Seq<StringCommand>) -> Seq<Seq<Seq<u8>>> {
    Seq::new(commands.len(), |i: int| commands[i]@)
}

/// True when the text of each command is the textual form of its parts.
pub open spec fn all_framed(commands: Seq<StringCommand>) -> bool {
    forall|i: int| 0 <= i < commands.len() ==> (#[trigger] commands[i]).framed()
}

/// An incremental decoder: it is fed a byte stream in chunks of any size and
/// hands out the commands that the bytes seen so far complete.
pub trait StreamChunkingService: Sized {
    /// The decoder's internal invariant.
    spec fn well_formed(&self) -> bool;

    /// A decoder at the start of a stream.
    fn new() -> (service: Self)
        ensures
            service.well_formed(),
    ;

    /// Takes the next chunk of the stream and hands out the commands that it
    /// completes, in order; never an empty list.
    fn next(&mut self, buffer: &[u8]) -> (r: Result<Vec<StringCommand>, StreamChunkingServiceError>)
        requires
            old(self).well_formed(),
        ensures
            final(self).well_formed(),
            r matches Ok(commands) ==> commands@.len() > 0,
    ;
}

} // verus!
