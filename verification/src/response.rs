//! Replies to commands and their encoding on the wire.

use vstd::prelude::*;
use vstd::utf8::encode_utf8;
use crate::text::{decimal, signed_decimal, push_decimal, push_signed_decimal};

verus! {

broadcast use vstd::string::group_string_axioms;

/// The reply to a command.
#[derive(Debug, PartialEq, Eq)]
pub enum Response {
    SimpleString(String),
    Error(String),
    Integer(i64),
    BulkString(Option<String>),
    Array(Vec<Response>),
    Null,
}

/// The two bytes that end a line of the protocol.
pub open spec fn crlf() -> Seq<u8> {
    seq![13u8, 10u8]
}

/// The bytes that encode `r`.
pub open spec fn response_bytes(r: Response) -> Seq<u8>
    decreases r,
{
    match r {
        Response::SimpleString(s) => seq![43u8] + encode_utf8(s@) + crlf(),
        Response::Error(e) => seq![45u8, 69u8, 82u8, 82u8, 32u8] + encode_utf8(e@) + crlf(),
        Response::Integer(i) => seq![58u8] + signed_decimal(i as int) + crlf(),
        Response::BulkString(Some(s)) => seq![36u8] + decimal(encode_utf8(s@).len())
            + crlf() + encode_utf8(s@) + crlf(),
        Response::BulkString(None) => seq![36u8, 45u8, 49u8] + crlf(),
        Response::Array(items) => seq![42u8] + decimal(items@.len()) + crlf() + items_bytes(
            items@,
        ),
        Response::Null => Seq::empty(),
    }
}

/// The bytes that encode each of `items`, one after the other.
pub open spec fn items_bytes(items: Seq<Response>) -> Seq<u8>
    decreases items,
{
    if items.len() == 0 {
        Seq::empty()
    } else {
        response_bytes(items[0]) + items_bytes(items.subrange(1, items.len() as int))
    }
}


/// Appends the bytes of `bytes` to `out`.
fn push_all(out: &mut Vec<u8>, bytes: &[u8])
    ensures
        final(out)@ == old(out)@ + bytes@,
{
    let mut i: usize = 0;
    while i < bytes.len()
        invariant
            0 <= i <= bytes@.len(),
            out@ == old(out)@ + bytes@.take(i as int),
        decreases bytes@.len() - i,
    {
        out.push(bytes[i]);
        i = i + 1;
        assert(out@ =~= old(out)@ + bytes@.take(i as int));
    }
    assert(bytes@.take(bytes@.len() as int) =~= bytes@);
}

/// Appends the two bytes that end a line.
fn push_crlf(out: &mut Vec<u8>)
    ensures
        final(out)@ == old(out)@ + crlf(),
{
    out.push(13u8);
    out.push(10u8);
    assert(final(out)@ =~= old(out)@ + crlf());
}

proof fn lemma_items_bytes_pointwise(a: Seq<Response>, b: Seq<Response>)
    requires
        a.len() == b.len(),
        forall|i: int| 0 <= i < a.len() ==> response_bytes(#[trigger] a[i]) == response_bytes(b[i]),
    ensures
        items_bytes(a) == items_bytes(b),
    decreases a.len(),
{
    if a.len() > 0 {
        let ra = a.subrange(1, a.len() as int);
        let rb = b.subrange(1, b.len() as int);
        assert forall|i: int| 0 <= i < ra.len() implies response_bytes(#[trigger] ra[i])
            == response_bytes(rb[i]) by {
            assert(ra[i] == a[i + 1]);
            assert(rb[i] == b[i + 1]);
        }
        lemma_items_bytes_pointwise(ra, rb);
        assert(response_bytes(a[0]) == response_bytes(b[0]));
    }
}

impl Clone for Response {
    /// A copy of the reply: equal to it, and for an array, an array of as many
    /// copies that encode to the same bytes.
    fn clone(&self) -> (r: Self)
        ensures
            !(*self is Array) ==> r == *self,
            response_bytes(r) == response_bytes(*self),
        decreases *self,
    {
        match self {
            Response::SimpleString(s) => Response::SimpleString(s.clone()),
            Response::Error(e) => Response::Error(e.clone()),
            Response::Integer(i) => Response::Integer(*i),
            Response::BulkString(Some(s)) => Response::BulkString(Some(s.clone())),
            Response::BulkString(None) => Response::BulkString(None),
            Response::Array(items) => {
                let mut copy: Vec<Response> = Vec::new();
                let mut k: usize = 0;
                while k < items.len()
                    invariant
                        *self is Array,
                        self->Array_0 == *items,
                        0 <= k <= items@.len(),
                        copy@.len() == k,
                        forall|j: int|
                            0 <= j < k ==> response_bytes(#[trigger] copy@[j]) == response_bytes(
                                items@[j],
                            ),
                    decreases items@.len() - k,
                {
                    proof {
                        assert(decreases_to!(*self => self->Array_0));
                        assert(decreases_to!(*items => items[k as int]));
                    }
                    copy.push(items[k].clone());
                    k = k + 1;
                }
                proof {
                    lemma_items_bytes_pointwise(copy@, items@);
                }
                Response::Array(copy)
            },
            Response::Null => Response::Null,
        }
    }
}

impl Response {
    /// Encodes the reply as bytes: a simple string as `+text`, an error as
    /// `-ERR text`, an integer as `:digits`, a bulk string as `$length` and the
    /// text on the next line (`$-1` when absent), an array as `*count` followed
    /// by the encoding of each item, every line ended by CR LF; `Null` as nothing.
    pub fn to_bytes(&self) -> (r: Vec<u8>)
        ensures
            r@ == response_bytes(*self),
        decreases *self,
    {
        let mut out: Vec<u8> = Vec::new();
        match self {
            Response::SimpleString(s) => {
                out.push(43u8);
                push_all(&mut out, s.as_str().as_bytes());
                push_crlf(&mut out);
            },
            Response::Error(e) => {
                out.push(45u8);
                out.push(69u8);
                out.push(82u8);
                out.push(82u8);
                out.push(32u8);
                push_all(&mut out, e.as_str().as_bytes());
                push_crlf(&mut out);
            },
            Response::Integer(i) => {
                out.push(58u8);
                push_signed_decimal(&mut out, *i);
                push_crlf(&mut out);
            },
            Response::BulkString(Some(s)) => {
                let bytes = s.as_str().as_bytes();
                out.push(36u8);
                push_decimal(&mut out, bytes.len() as u64);
                push_crlf(&mut out);
                push_all(&mut out, bytes);
                push_crlf(&mut out);
            },
            Response::BulkString(None) => {
                out.push(36u8);
                out.push(45u8);
                out.push(49u8);
                push_crlf(&mut out);
            },
            Response::Array(items) => {
                out.push(42u8);
                push_decimal(&mut out, items.len() as u64);
                push_crlf(&mut out);
                let ghost head = out@;
                assert(items@.subrange(0, items@.len() as int) =~= items@);
                let mut k: usize = 0;
                while k < items.len()
                    invariant
                        *self is Array,
                        self->Array_0 == *items,
                        0 <= k <= items@.len(),
                        out@ + items_bytes(items@.subrange(k as int, items@.len() as int))
                            == head + items_bytes(items@),
                    decreases items@.len() - k,
                {
                    let ghost rest = items@.subrange(k as int, items@.len() as int);
                    assert(rest.subrange(1, rest.len() as int) =~= items@.subrange(
                        k + 1,
                        items@.len() as int,
                    ));
                    proof {
                        assert(decreases_to!(*self => self->Array_0));
                        assert(decreases_to!(*items => items[k as int]));
                    }
                    let mut b = items[k].to_bytes();
                    out.append(&mut b);
                    k = k + 1;
                }
                assert(items@.subrange(items@.len() as int, items@.len() as int) =~= Seq::<
                    Response,
                >::empty());
            },
            Response::Null => {},
        }
        assert(out@ =~= response_bytes(*self));
        out
    }

    /// The reply `+OK`.
    pub fn ok() -> (r: Self)
        ensures
            r matches Response::SimpleString(s) && s@ == seq!['O', 'K'],
    {
        proof {
            reveal_strlit("OK");
        }
        Response::SimpleString("OK".to_string())
    }

    /// An error reply that carries `msg`.
    pub fn error(msg: &str) -> (r: Self)
        ensures
            r matches Response::Error(e) && e@ == msg@,
    {
        Response::Error(msg.to_string())
    }
}

} // verus!
