//! Reading a response back from its wire form, as mathematics, and the proof
//! that reading undoes writing.

use vstd::prelude::*;
use vstd::utf8::*;
use crate::bytes::{crlf, first_crlf, has_crlf, lemma_line_found, lemma_scan_crlf, CR, LF};
use crate::decimal::{
    decimal, i64_field, is_digit, lemma_decimal, lemma_digits_hold_no_terminator,
    lemma_signed_decimal_holds_no_terminator, lemma_signed_field_of_decimal,
    lemma_unsigned_field_of_decimal, signed_decimal, usize_field, MINUS,
};
use crate::framing::{payload, Payload, ARRAY_MARKER, BULK_MARKER};
use crate::resp_response::{
    lemma_models_of, model_of, models_of, wire, wire_all, RespResponse, ResponseModel,
    ERROR_MARKER, INTEGER_MARKER, SIMPLE_MARKER,
};

verus! {

/// The line that stands for an absent bulk string: minus one.
pub open spec fn null_length() -> Seq<u8> {
    seq![MINUS, 49u8]
}

/// Reads one response at the front of `bytes`: the response and the number of
/// bytes that it takes up, or nothing where the bytes do not start with a whole
/// response.
pub open spec fn read_response(bytes: Seq<u8>) -> Option<(ResponseModel, int)>
    decreases bytes.len(), 0nat,
{
    if bytes.len() == 0 {
        None
    } else {
        match first_crlf(bytes) {
            None => None,
            Some(p) => if p < 1 || p + 2 > bytes.len() {
                None
            } else {
                let line = bytes.subrange(1, p);
                let body = bytes.skip(p + 2);
                if bytes[0] == SIMPLE_MARKER {
                    if valid_utf8(line) {
                        Some((ResponseModel::SimpleString(decode_utf8(line)), p + 2))
                    } else {
                        None
                    }
                } else if bytes[0] == ERROR_MARKER {
                    if valid_utf8(line) {
                        Some((ResponseModel::Error(decode_utf8(line)), p + 2))
                    } else {
                        None
                    }
                } else if bytes[0] == INTEGER_MARKER {
                    match i64_field(line) {
                        Some(i) => Some((ResponseModel::Integer(i), p + 2)),
                        None => None,
                    }
                } else if bytes[0] == BULK_MARKER {
                    if line == null_length() {
                        Some((ResponseModel::BulkString(None), p + 2))
                    } else {
                        match usize_field(line) {
                            Some(length) => match payload(body, length) {
                                Payload::Data { data, used } => Some(
                                    (ResponseModel::BulkString(Some(data)), p + 2 + used),
                                ),
                                _ => None,
                            },
                            None => None,
                        }
                    }
                } else if bytes[0] == ARRAY_MARKER {
                    match usize_field(line) {
                        Some(count) => match read_responses(body, count as nat) {
                            Some((items, used)) => Some(
                                (ResponseModel::Array(items), p + 2 + used),
                            ),
                            None => None,
                        },
                        None => None,
                    }
                } else {
                    None
                }
            },
        }
    }
}

/// Reads `count` responses, one after the other, at the front of `bytes`.
pub open spec fn read_responses(bytes: Seq<u8>, count: nat) -> Option<(Seq<ResponseModel>, int)>
    decreases bytes.len(), count + 1,
{
    if count == 0 {
        Some((Seq::empty(), 0))
    } else {
        match read_response(bytes) {
            Some((first, used)) => if 0 < used <= bytes.len() {
                match read_responses(bytes.skip(used), (count - 1) as nat) {
                    Some((rest, more)) => Some((seq![first] + rest, used + more)),
                    None => None,
                }
            } else {
                None
            },
            None => None,
        }
    }
}

/// True for the responses that can be read back: no text holds a line
/// terminator, which would end it early, and every length fits a machine word.
pub open spec fn readable(response: ResponseModel) -> bool
    decreases response,
{
    match response {
        ResponseModel::SimpleString(s) => !has_crlf(encode_utf8(s)),
        ResponseModel::Error(e) => !has_crlf(encode_utf8(e)),
        ResponseModel::Integer(i) => true,
        ResponseModel::BulkString(None) => true,
        ResponseModel::BulkString(Some(b)) => b.len() <= usize::MAX,
        ResponseModel::Array(items) => items.len() <= usize::MAX && forall|i: int|
            0 <= i < items.len() ==> readable(#[trigger] items[i]),
    }
}

/// True when no text of the response holds a line terminator.
pub open spec fn text_holds_no_terminator(response: ResponseModel) -> bool
    decreases response,
{
    match response {
        ResponseModel::SimpleString(s) => !has_crlf(encode_utf8(s)),
        ResponseModel::Error(e) => !has_crlf(encode_utf8(e)),
        ResponseModel::Integer(i) => true,
        ResponseModel::BulkString(b) => true,
        ResponseModel::Array(items) => forall|i: int|
            0 <= i < items.len() ==> text_holds_no_terminator(#[trigger] items[i]),
    }
}

/// The wire forms of the items from index `from` on, one after the other.
pub open spec fn wire_from(items: Seq<ResponseModel>, from: int) -> Seq<u8>
    decreases items.len() - from,
{
    if from < 0 || from >= items.len() {
        Seq::empty()
    } else {
        wire(items[from]) + wire_from(items, from + 1)
    }
}

/// The wire forms of all items are those of the first `k` followed by those of
/// the rest.
pub proof fn lemma_wire_all_split(items: Seq<ResponseModel>, k: int)
    requires
        0 <= k <= items.len(),
    ensures
        wire_all(items, items.len() as int) == wire_all(items, k) + wire_from(items, k),
    decreases items.len() - k,
{
    if k == items.len() {
        assert(wire_all(items, k) + Seq::<u8>::empty() == wire_all(items, k));
    } else {
        lemma_wire_all_split(items, k + 1);
        assert((wire_all(items, k) + wire(items[k])) + wire_from(items, k + 1) == wire_all(items, k)
            + (wire(items[k]) + wire_from(items, k + 1)));
    }
}

/// Reading undoes writing: at the front of the wire form of a readable
/// response, whatever follows it, stands that response and nothing else.
pub proof fn lemma_read_wire(response: ResponseModel, tail: Seq<u8>)
    requires
        readable(response),
    ensures
        read_response(wire(response) + tail) == Some((response, wire(response).len() as int)),
        wire(response).len() > 0,
    decreases response, 1nat,
{
    let bytes = wire(response) + tail;
    match response {
        ResponseModel::SimpleString(s) => {
            let line = encode_utf8(s);
            lemma_line_found(SIMPLE_MARKER, line, tail);
            assert(bytes =~= seq![SIMPLE_MARKER] + line + crlf() + tail);
            encode_utf8_valid_utf8(s);
            encode_utf8_decode_utf8(s);
        },
        ResponseModel::Error(e) => {
            let line = encode_utf8(e);
            lemma_line_found(ERROR_MARKER, line, tail);
            assert(bytes =~= seq![ERROR_MARKER] + line + crlf() + tail);
            encode_utf8_valid_utf8(e);
            encode_utf8_decode_utf8(e);
        },
        ResponseModel::Integer(i) => {
            let line = signed_decimal(i as int);
            lemma_signed_decimal_holds_no_terminator(i as int);
            lemma_line_found(INTEGER_MARKER, line, tail);
            assert(bytes =~= seq![INTEGER_MARKER] + line + crlf() + tail);
            lemma_signed_field_of_decimal(i as int);
        },
        ResponseModel::BulkString(None) => {
            let line = null_length();
            lemma_scan_crlf(line, 0);
            lemma_line_found(BULK_MARKER, line, tail);
            assert(bytes =~= seq![BULK_MARKER] + line + crlf() + tail);
        },
        ResponseModel::BulkString(Some(b)) => {
            let line = decimal(b.len());
            lemma_decimal(b.len());
            lemma_digits_hold_no_terminator(line);
            lemma_unsigned_field_of_decimal(b.len());
            let body = b + crlf() + tail;
            lemma_line_found(BULK_MARKER, line, body);
            assert(bytes =~= seq![BULK_MARKER] + line + crlf() + body);
            assert(is_digit(line[0]));
            assert(line != null_length());
            assert(body[b.len() as int] == CR);
            assert(body[b.len() as int + 1] == LF);
            assert(body.take(b.len() as int) =~= b);
        },
        ResponseModel::Array(items) => {
            let line = decimal(items.len());
            lemma_decimal(items.len());
            lemma_digits_hold_no_terminator(line);
            lemma_unsigned_field_of_decimal(items.len());
            let body = wire_all(items, items.len() as int) + tail;
            lemma_line_found(ARRAY_MARKER, line, body);
            assert(bytes =~= seq![ARRAY_MARKER] + line + crlf() + body);
            lemma_wire_all_split(items, 0);
            assert(wire_all(items, 0) + wire_from(items, 0) == wire_from(items, 0));
            lemma_read_wire_from(response, items, 0, tail);
            assert(items.skip(0) =~= items);
        },
    }
}

/// Reading undoes writing for the items of an array, from index `from` on.
pub proof fn lemma_read_wire_from(
    parent: ResponseModel,
    items: Seq<ResponseModel>,
    from: int,
    tail: Seq<u8>,
)
    requires
        parent == ResponseModel::Array(items),
        readable(parent),
        0 <= from <= items.len(),
    ensures
        read_responses(wire_from(items, from) + tail, (items.len() - from) as nat) == Some(
            (items.skip(from), wire_from(items, from).len() as int),
        ),
    decreases parent, 0nat, items.len() - from,
{
    if from == items.len() {
        assert(items.skip(from) =~= Seq::<ResponseModel>::empty());
    } else {
        let first = items[from];
        let after = wire_from(items, from + 1) + tail;
        let bytes = wire_from(items, from) + tail;
        assert(bytes =~= wire(first) + after);
        assert(readable(first));
        lemma_read_wire(first, after);
        lemma_read_wire_from(parent, items, from + 1, tail);
        assert(bytes.skip(wire(first).len() as int) =~= after);
        assert(seq![first] + items.skip(from + 1) =~= items.skip(from));
    }
}

/// A readable response survives the round trip: its wire form reads back as
/// the response itself, and takes up all the bytes.
pub proof fn lemma_round_trip(response: ResponseModel)
    requires
        readable(response),
    ensures
        read_response(wire(response)) == Some((response, wire(response).len() as int)),
{
    lemma_read_wire(response, Seq::empty());
    assert(wire(response) + Seq::<u8>::empty() == wire(response));
}

/// Every response whose texts hold no line terminator can be read back: the
/// lengths of a response that the machine holds fit a machine word.
pub proof fn lemma_held_response_is_readable(response: RespResponse)
    requires
        text_holds_no_terminator(response@),
    ensures
        readable(response@),
    decreases response,
{
    match response {
        RespResponse::BulkString(Some(b)) => {
            assert(b@.len() == b.len());
        },
        RespResponse::Array(items) => {
            let values = models_of(items@, items@.len() as int);
            lemma_models_of(items@, items@.len() as int);
            assert(items@.len() == items.len());
            assert(response@ == ResponseModel::Array(values));
            assert(response@->Array_0.len() == values.len());
            assert forall|i: int| 0 <= i < values.len() implies readable(#[trigger] values[i]) by {
                assert(values[i] == model_of(items@[i]));
                assert(text_holds_no_terminator(values[i]));
                lemma_held_response_is_readable(items@[i]);
            }
        },
        _ => {},
    }
}

/// The round trip of a response: unless one of its texts holds a line
/// terminator, the bytes that `to_resp` writes read back as the response
/// itself, and take up all the bytes.
pub proof fn lemma_response_round_trip(response: RespResponse)
    requires
        text_holds_no_terminator(response@),
    ensures
        read_response(wire(response@)) == Some((response@, wire(response@).len() as int)),
{
    lemma_held_response_is_readable(response);
    lemma_round_trip(response@);
}

} // verus!
