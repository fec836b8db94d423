//! Responses: the values that the server answers with, and their wire form.

use vstd::prelude::*;
use vstd::string::*;
use vstd::utf8::*;
use crate::bytes::{append_bytes, crlf, to_vec, CR, LF};
use crate::decimal::{decimal, render_i64, render_usize, signed_decimal, MINUS};
use crate::framing::{ARRAY_MARKER, BULK_MARKER};
use crate::resp_command::optional_bytes;

verus! {

/// The byte that opens a simple string.
pub const SIMPLE_MARKER: u8 = 43;

/// The byte that opens an error.
pub const ERROR_MARKER: u8 = 45;

/// The byte that opens an integer.
pub const INTEGER_MARKER: u8 = 58;

/// A response.
#[derive(Debug, PartialEq)]
pub enum RespResponse {
    /// A short text that holds no line terminator.
    SimpleString(String),
    /// An error, described by a short text.
    Error(String),
    /// A signed integer.
    Integer(i64),
    /// A byte string, or the absence of one.
    BulkString(Option<Vec<u8>>),
    /// A sequence of responses.
    Array(Vec<RespResponse>),
}

/// A response as a mathematical value.
pub enum ResponseModel {
    SimpleString(Seq<char>),
    Error(Seq<char>),
    Integer(i64),
    BulkString(Option<Seq<u8>>),
    Array(Seq<ResponseModel>),
}

/// The value of a response.
pub open spec fn model_of(response: RespResponse) -> ResponseModel
    decreases response,
{
    match response {
        RespResponse::SimpleString(s) => ResponseModel::SimpleString(s@),
        RespResponse::Error(e) => ResponseModel::Error(e@),
        RespResponse::Integer(i) => ResponseModel::Integer(i),
        RespResponse::BulkString(b) => ResponseModel::BulkString(optional_bytes(b)),
        RespResponse::Array(items) => ResponseModel::Array(models_of(items@, items@.len() as int)),
    }
}

/// The values of the first `n` of a sequence of responses.
pub open spec fn models_of(items: Seq<RespResponse>, n: int) -> Seq<ResponseModel>
    decreases items, n,
{
    if n <= 0 || n > items.len() {
        Seq::empty()
    } else {
        models_of(items, n - 1).push(model_of(items[n - 1]))
    }
}

impl View for RespResponse {
    type V = ResponseModel;

    open spec fn view(&self) -> ResponseModel {
        model_of(*self)
    }
}

/// The wire form of an absent bulk string.
pub open spec fn null_wire() -> Seq<u8> {
    seq![BULK_MARKER, MINUS, 49u8, CR, LF]
}

/// The wire form of a response.
pub open spec fn wire(response: ResponseModel) -> Seq<u8>
    decreases response,
{
    match response {
        ResponseModel::SimpleString(s) => seq![SIMPLE_MARKER] + encode_utf8(s) + crlf(),
        ResponseModel::Error(e) => seq![ERROR_MARKER] + encode_utf8(e) + crlf(),
        ResponseModel::Integer(i) => seq![INTEGER_MARKER] + signed_decimal(i as int) + crlf(),
        ResponseModel::BulkString(None) => null_wire(),
        ResponseModel::BulkString(Some(b)) => seq![BULK_MARKER] + decimal(b.len()) + crlf() + b
            + crlf(),
        ResponseModel::Array(items) => seq![ARRAY_MARKER] + decimal(items.len()) + crlf()
            + wire_all(items, items.len() as int),
    }
}

/// The wire forms of the first `n` of a sequence of responses, one after the
/// other.
pub open spec fn wire_all(items: Seq<ResponseModel>, n: int) -> Seq<u8>
    decreases items, n,
{
    if n <= 0 || n > items.len() {
        Seq::empty()
    } else {
        wire_all(items, n - 1) + wire(items[n - 1])
    }
}

/// The values of the first `n` responses are `n` values, each the value of its
/// response.
pub proof fn lemma_models_of(items: Seq<RespResponse>, n: int)
    requires
        0 <= n <= items.len(),
    ensures
        models_of(items, n).len() == n,
        forall|i: int| 0 <= i < n ==> (#[trigger] models_of(items, n)[i]) == model_of(items[i]),
    decreases n,
{
    if n > 0 {
        lemma_models_of(items, n - 1);
    }
}

impl RespResponse {
    /// The answer to a liveness check.
    pub fn pong() -> (response: Self)
        ensures
            response@ == ResponseModel::SimpleString("PONG"@),
    {
        RespResponse::SimpleString(String::from_str("PONG"))
    }

    /// The answer that sends `message` back.
    pub fn echo(message: Vec<u8>) -> (response: Self)
        ensures
            response@ == ResponseModel::BulkString(Some(message@)),
    {
        RespResponse::BulkString(Some(message))
    }

    /// The acknowledgement of a write.
    pub fn set() -> (response: Self)
        ensures
            response@ == ResponseModel::SimpleString("OK"@),
    {
        RespResponse::SimpleString(String::from_str("OK"))
    }

    /// The answer to a read that found `value`.
    pub fn get(value: Vec<u8>) -> (response: Self)
        ensures
            response@ == ResponseModel::BulkString(Some(value@)),
    {
        RespResponse::BulkString(Some(value))
    }

    /// The answer to a read that found nothing.
    pub fn null() -> (response: Self)
        ensures
            response@ == ResponseModel::BulkString(None),
    {
        RespResponse::BulkString(None)
    }

    /// Writes the wire form of the response.
    pub fn encode(&self) -> (out: Vec<u8>)
        ensures
            out@ == wire(self@),
        decreases self,
    {
        let mut out: Vec<u8> = Vec::new();
        match self {
            RespResponse::SimpleString(s) => {
                out.push(SIMPLE_MARKER);
                append_bytes(&mut out, s.as_str().as_bytes());
                out.push(CR);
                out.push(LF);
                assert(out@ =~= wire(self@));
            },
            RespResponse::Error(e) => {
                out.push(ERROR_MARKER);
                append_bytes(&mut out, e.as_str().as_bytes());
                out.push(CR);
                out.push(LF);
                assert(out@ =~= wire(self@));
            },
            RespResponse::Integer(i) => {
                out.push(INTEGER_MARKER);
                let digits = render_i64(*i);
                append_bytes(&mut out, digits.as_slice());
                out.push(CR);
                out.push(LF);
                assert(out@ =~= wire(self@));
            },
            RespResponse::BulkString(None) => {
                out.push(BULK_MARKER);
                out.push(MINUS);
                out.push(49u8);
                out.push(CR);
                out.push(LF);
                assert(out@ =~= wire(self@));
            },
            RespResponse::BulkString(Some(bytes)) => {
                out.push(BULK_MARKER);
                let digits = render_usize(bytes.len());
                append_bytes(&mut out, digits.as_slice());
                out.push(CR);
                out.push(LF);
                append_bytes(&mut out, bytes.as_slice());
                out.push(CR);
                out.push(LF);
                assert(out@ =~= wire(self@));
            },
            RespResponse::Array(items) => {
                out.push(ARRAY_MARKER);
                let digits = render_usize(items.len());
                append_bytes(&mut out, digits.as_slice());
                out.push(CR);
                out.push(LF);
                let ghost head = out@;
                let ghost values = models_of(items@, items@.len() as int);
                proof {
                    lemma_models_of(items@, items@.len() as int);
                    assert(head =~= seq![ARRAY_MARKER] + decimal(values.len()) + crlf());
                    assert(head + wire_all(values, 0) =~= head);
                }
                let mut i: usize = 0;
                while i < items.len()
                    invariant
                        i <= items@.len(),
                        decreases_to!(*self => items@),
                        values.len() == items@.len(),
                        forall|j: int|
                            0 <= j < items@.len() ==> (#[trigger] values[j]) == model_of(items@[j]),
                        out@ == head + wire_all(values, i as int),
                    decreases items@.len() - i,
                {
                    proof {
                        assert(decreases_to!(items@ => items@[i as int]));
                    }
                    let item = items[i].encode();
                    append_bytes(&mut out, item.as_slice());
                    assert(out@ =~= head + wire_all(values, i + 1));
                    i += 1;
                }
            },
        }
        out
    }

    /// Writes the wire form of the response.
    pub fn to_resp(self) -> (out: Vec<u8>)
        ensures
            out@ == wire(self@),
    {
        self.encode()
    }
}

impl Clone for RespResponse {
    /// A copy of the response: the same value, items and all.
    fn clone(&self) -> (copy: Self)
        ensures
            copy@ == self@,
        decreases self,
    {
        match self {
            RespResponse::SimpleString(s) => RespResponse::SimpleString(s.clone()),
            RespResponse::Error(e) => RespResponse::Error(e.clone()),
            RespResponse::Integer(i) => RespResponse::Integer(*i),
            RespResponse::BulkString(None) => RespResponse::BulkString(None),
            RespResponse::BulkString(Some(bytes)) => RespResponse::BulkString(
                Some(to_vec(bytes.as_slice())),
            ),
            RespResponse::Array(items) => {
                let mut copies: Vec<RespResponse> = Vec::new();
                let mut i: usize = 0;
                while i < items.len()
                    invariant
                        i <= items@.len(),
                        decreases_to!(*self => items@),
                        copies@.len() == i,
                        forall|j: int|
                            0 <= j < i ==> model_of(#[trigger] copies@[j]) == model_of(items@[j]),
                    decreases items@.len() - i,
                {
                    proof {
                        assert(decreases_to!(items@ => items@[i as int]));
                    }
                    let copy = items[i].clone();
                    copies.push(copy);
                    i += 1;
                }
                proof {
                    lemma_models_of(items@, items@.len() as int);
                    lemma_models_of(copies@, copies@.len() as int);
                    assert(models_of(copies@, copies@.len() as int) =~= models_of(
                        items@,
                        items@.len() as int,
                    ));
                }
                RespResponse::Array(copies)
            },
        }
    }
}

} // verus!
