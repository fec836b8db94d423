//! Byte-level vocabulary shared by the wire reader and the wire writer:
//! the line terminator, where it first occurs, and plain copies of byte strings.

use vstd::prelude::*;
use vstd::utf8::*;

verus! {

/// Carriage return, the first byte of a line terminator.
pub const CR: u8 = 13;

/// Line feed, the second byte of a line terminator.
pub const LF: u8 = 10;

/// The blank that stands in for a line break where none may stand.
pub const SPACE: u8 = 32;

/// True for the two bytes that make up a line terminator.
pub open spec fn is_break(b: u8) -> bool {
    b == CR || b == LF
}

/// The bytes of `s` with a blank in place of every carriage return and every
/// line feed.
pub open spec fn without_breaks(s: Seq<u8>) -> Seq<u8> {
    Seq::new(
        s.len(),
        |i: int|
            if is_break(s[i]) {
                SPACE
            } else {
                s[i]
            },
    )
}

/// The two-byte line terminator.
pub open spec fn crlf() -> Seq<u8> {
    seq![CR, LF]
}

/// True when a line terminator starts at index `i` of `s`.
pub open spec fn crlf_at(s: Seq<u8>, i: int) -> bool {
    &&& 0 <= i
    &&& i + 1 < s.len()
    &&& s[i] == CR
    &&& s[i + 1] == LF
}

/// The index of the first line terminator of `s` at or after `from`.
pub open spec fn scan_crlf(s: Seq<u8>, from: int) -> Option<int>
    decreases s.len() - from,
{
    if from < 0 || from + 1 >= s.len() {
        None
    } else if s[from] == CR && s[from + 1] == LF {
        Some(from)
    } else {
        scan_crlf(s, from + 1)
    }
}

/// The index of the first line terminator of `s`, if it holds one.
pub open spec fn first_crlf(s: Seq<u8>) -> Option<int> {
    scan_crlf(s, 0)
}

/// True when `s` holds a line terminator somewhere.
pub open spec fn has_crlf(s: Seq<u8>) -> bool {
    first_crlf(s) is Some
}

/// What a scan finds is a terminator, and no terminator lies before it.
pub proof fn lemma_scan_crlf(s: Seq<u8>, from: int)
    requires
        0 <= from,
    ensures
        match scan_crlf(s, from) {
            Some(p) => from <= p && crlf_at(s, p) && forall|j: int|
                from <= j < p ==> !crlf_at(s, j),
            None => forall|j: int| from <= j ==> !crlf_at(s, j),
        },
    decreases s.len() - from,
{
    if from + 1 >= s.len() {
    } else if s[from] == CR && s[from + 1] == LF {
    } else {
        lemma_scan_crlf(s, from + 1);
    }
}

/// The first terminator is the one that no terminator precedes.
pub proof fn lemma_first_crlf_is(s: Seq<u8>, p: int)
    requires
        crlf_at(s, p),
        forall|j: int| 0 <= j < p ==> !crlf_at(s, j),
    ensures
        first_crlf(s) == Some(p),
{
    lemma_scan_crlf(s, 0);
}

/// No terminator anywhere means the scan finds none.
pub proof fn lemma_first_crlf_none(s: Seq<u8>)
    requires
        forall|j: int| !crlf_at(s, j),
    ensures
        first_crlf(s) is None,
{
    lemma_scan_crlf(s, 0);
}

/// Bytes appended behind a terminator do not move it.
pub proof fn lemma_first_crlf_extend(s: Seq<u8>, t: Seq<u8>)
    requires
        first_crlf(s) is Some,
    ensures
        first_crlf(s + t) == first_crlf(s),
{
    lemma_scan_crlf(s, 0);
    let p = first_crlf(s)->0;
    let u = s + t;
    assert(crlf_at(u, p));
    assert forall|j: int| 0 <= j < p implies !crlf_at(u, j) by {
        assert(u[j] == s[j]);
        assert(u[j + 1] == s[j + 1]);
        assert(!crlf_at(s, j));
    }
    lemma_first_crlf_is(u, p);
}

/// A stretch that holds no terminator ends at the terminator that follows it.
pub proof fn lemma_terminator_found(line: Seq<u8>, tail: Seq<u8>)
    requires
        !has_crlf(line),
    ensures
        first_crlf(line + crlf() + tail) == Some(line.len() as int),
        (line + crlf() + tail).take(line.len() as int) == line,
        (line + crlf() + tail).skip(line.len() as int + 2) == tail,
{
    let whole = line + crlf() + tail;
    let p = line.len() as int;
    lemma_scan_crlf(line, 0);
    assert(whole[p] == CR);
    assert(whole[p + 1] == LF);
    assert forall|j: int| 0 <= j < p implies !crlf_at(whole, j) by {
        if j + 1 < p {
            assert(whole[j] == line[j]);
            assert(whole[j + 1] == line[j + 1]);
            assert(!crlf_at(line, j));
        } else {
            assert(whole[j + 1] == CR);
        }
    }
    lemma_first_crlf_is(whole, p);
    assert(whole.take(p) =~= line);
    assert(whole.skip(p + 2) =~= tail);
}

/// A line that holds no terminator, behind a marker byte, ends at the
/// terminator that follows it.
pub proof fn lemma_line_found(marker: u8, line: Seq<u8>, tail: Seq<u8>)
    requires
        marker != CR,
        !has_crlf(line),
    ensures
        first_crlf(seq![marker] + line + crlf() + tail) == Some(1 + line.len() as int),
        (seq![marker] + line + crlf() + tail).subrange(1, 1 + line.len() as int) == line,
        (seq![marker] + line + crlf() + tail).skip(1 + line.len() as int + 2) == tail,
        (seq![marker] + line + crlf() + tail)[0] == marker,
{
    let head = seq![marker] + line;
    let whole = head + crlf() + tail;
    lemma_scan_crlf(line, 0);
    lemma_scan_crlf(head, 0);
    assert forall|j: int| !crlf_at(head, j) by {
        if 1 <= j && j + 1 < head.len() {
            assert(head[j] == line[j - 1]);
            assert(head[j + 1] == line[j]);
            assert(!crlf_at(line, j - 1));
        }
    }
    lemma_terminator_found(head, tail);
    assert(whole.subrange(1, head.len() as int) =~= line);
}

/// Bytes without breaks hold no line terminator.
pub proof fn lemma_without_breaks_holds_no_terminator(s: Seq<u8>)
    ensures
        !has_crlf(without_breaks(s)),
        forall|i: int| 0 <= i < s.len() ==> !is_break(#[trigger] without_breaks(s)[i]),
{
    lemma_scan_crlf(without_breaks(s), 0);
}

/// Bytes that hold no break stay as they are.
pub proof fn lemma_without_breaks_of_clean(s: Seq<u8>)
    requires
        forall|i: int| 0 <= i < s.len() ==> !is_break(#[trigger] s[i]),
    ensures
        without_breaks(s) == s,
{
    assert(without_breaks(s) =~= s);
}

/// Bytes below 128 are text: each stands for one character.
pub proof fn lemma_ascii_is_text(bytes: Seq<u8>)
    requires
        forall|i: int| 0 <= i < bytes.len() ==> (#[trigger] bytes[i]) <= 0x7f,
    ensures
        valid_utf8(bytes),
    decreases bytes.len(),
{
    if bytes.len() > 0 {
        let first = bytes[0];
        assert((first & 0x7f) <= 0x7f) by (bit_vector);
        let rest = pop_first_scalar(bytes);
        assert(rest =~= bytes.subrange(1, bytes.len() as int));
        assert forall|i: int| 0 <= i < rest.len() implies (#[trigger] rest[i]) <= 0x7f by {
            assert(rest[i] == bytes[i + 1]);
        }
        lemma_ascii_is_text(rest);
    }
}

/// Text stays text when blanks take the place of its line breaks.
pub proof fn lemma_without_breaks_is_text(bytes: Seq<u8>)
    requires
        valid_utf8(bytes),
    ensures
        valid_utf8(without_breaks(bytes)),
    decreases bytes.len(),
{
    let clean = without_breaks(bytes);
    if bytes.len() > 0 {
        let width = length_of_first_scalar(bytes);
        let rest = pop_first_scalar(bytes);
        let first = clean[0];
        assert((first & 0x7f) <= 0x7f) by (bit_vector);
        assert(1 <= width <= bytes.len());
        assert(rest.len() == bytes.len() - width);
        assert(length_of_first_scalar(clean) == width);
        assert(width > 1 ==> decode_first_codepoint(clean) == decode_first_codepoint(bytes)) by {
            if width > 1 {
                assert(clean[0] == bytes[0]);
                assert(clean[1] == bytes[1]);
                if width > 2 {
                    assert(clean[2] == bytes[2]);
                }
                if width > 3 {
                    assert(clean[3] == bytes[3]);
                }
            }
        }
        assert(valid_first_scalar(clean));
        lemma_without_breaks_is_text(rest);
        assert(pop_first_scalar(clean) =~= without_breaks(rest));
    }
}

/// Finds the first line terminator of a byte string.
pub fn find_crlf(s: &[u8]) -> (r: Option<usize>)
    ensures
        match r {
            Some(p) => first_crlf(s@) == Some(p as int),
            None => first_crlf(s@) is None,
        },
{
    let n = s.len();
    let mut i: usize = 0;
    while i < n && i + 1 < n
        invariant
            n == s@.len(),
            i <= n,
            forall|j: int| 0 <= j < i ==> !crlf_at(s@, j),
        decreases n - i,
    {
        if s[i] == CR && s[i + 1] == LF {
            proof {
                lemma_first_crlf_is(s@, i as int);
            }
            return Some(i);
        }
        i += 1;
    }
    proof {
        assert forall|j: int| !crlf_at(s@, j) by {
            if 0 <= j && j + 1 < s@.len() {
                assert(j < i);
            }
        }
        lemma_first_crlf_none(s@);
    }
    None
}

/// Copies a byte string, with a blank in place of every carriage return and
/// every line feed.
pub fn scrub(s: &[u8]) -> (out: Vec<u8>)
    ensures
        out@ == without_breaks(s@),
{
    let mut out: Vec<u8> = Vec::new();
    let mut i: usize = 0;
    while i < s.len()
        invariant
            i <= s@.len(),
            out@ == without_breaks(s@).take(i as int),
        decreases s.len() - i,
    {
        let b = s[i];
        if b == CR || b == LF {
            out.push(SPACE);
        } else {
            out.push(b);
        }
        assert(out@ =~= without_breaks(s@).take(i + 1));
        i += 1;
    }
    assert(without_breaks(s@).take(s@.len() as int) =~= without_breaks(s@));
    out
}

/// Copies the bytes `s[from..to]` into a fresh vector.
pub fn copy_range(s: &[u8], from: usize, to: usize) -> (out: Vec<u8>)
    requires
        from <= to <= s@.len(),
    ensures
        out@ == s@.subrange(from as int, to as int),
{
    let mut out: Vec<u8> = Vec::new();
    let mut i: usize = from;
    while i < to
        invariant
            from <= i <= to <= s@.len(),
            out@ == s@.subrange(from as int, i as int),
        decreases to - i,
    {
        out.push(s[i]);
        i += 1;
    }
    out
}

/// Copies a whole byte string into a fresh vector.
pub fn to_vec(s: &[u8]) -> (out: Vec<u8>)
    ensures
        out@ == s@,
{
    let out = copy_range(s, 0, s.len());
    assert(s@.subrange(0, s@.len() as int) == s@);
    out
}

/// Appends the bytes of `s` to `out`.
pub fn append_bytes(out: &mut Vec<u8>, s: &[u8])
    ensures
        final(out)@ == old(out)@ + s@,
{
    let mut i: usize = 0;
    while i < s.len()
        invariant
            i <= s@.len(),
            out@ == old(out)@ + s@.subrange(0, i as int),
        decreases s.len() - i,
    {
        out.push(s[i]);
        i += 1;
    }
    assert(s@.subrange(0, s@.len() as int) == s@);
}

/// True when two byte strings hold the same bytes.
pub fn same_bytes(a: &[u8], b: &[u8]) -> (r: bool)
    ensures
        r == (a@ == b@),
{
    if a.len() != b.len() {
        return false;
    }
    let mut i: usize = 0;
    while i < a.len()
        invariant
            a@.len() == b@.len(),
            i <= a@.len(),
            forall|j: int| 0 <= j < i ==> a@[j] == b@[j],
        decreases a.len() - i,
    {
        if a[i] != b[i] {
            return false;
        }
        i += 1;
    }
    assert(a@ =~= b@);
    true
}

} // verus!
