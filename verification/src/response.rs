//! The response under construction.
//!
//! A response gathers the bytes that go on the wire; sending them is the
//! caller's business. The head (status line and header lines) is produced at
//! most once, and so is the body.

use vstd::prelude::*;
use vstd::string::{StrSliceExecFns, StringExecFns, StringSliceAdditionalSpecFns};
use vstd::utf8::encode_utf8;
use crate::header::{put, Headers};
use crate::protocol::{StatusCode, HTTP_PROTOCOL};
use crate::router::handler::{Failure, Return};
use crate::text::{decimal, decimal_of};

verus! {

#[derive(Debug)]
pub struct Response {
    pub status: StatusCode,
    pub headers: Headers,
    wire: Vec<u8>,
    is_header_written: bool,
    is_body_written: bool,
}

/// The status line: protocol, code and reason, separated by single spaces.
pub open spec fn status_line(status: StatusCode) -> Seq<char> {
    HTTP_PROTOCOL@ + " "@ + decimal(status.code() as nat) + " "@ + status.reason() + "\r\n"@
}

/// One header line for each of `values`, all under `name`.
pub open spec fn header_lines(name: Seq<char>, values: Seq<Seq<char>>) -> Seq<char>
    decreases values.len(),
{
    if values.len() == 0 {
        Seq::empty()
    } else {
        header_lines(name, values.drop_last()) + name + ": "@ + values.last() + "\r\n"@
    }
}

/// The header lines of the first `n` names of `headers`.
pub open spec fn headers_text(headers: Headers, n: nat) -> Seq<char>
    decreases n,
{
    if n == 0 {
        Seq::empty()
    } else {
        headers_text(headers, (n - 1) as nat) + header_lines(
            headers.entries()[n - 1].0,
            headers.entries()[n - 1].1,
        )
    }
}

/// The head of a response: the status line, then the header lines.
pub open spec fn head_text(status: StatusCode, headers: Headers) -> Seq<char> {
    status_line(status) + headers_text(headers, headers.entries().len())
}

/// The bytes of the line break that stands between head and body.
pub open spec fn line_break() -> Seq<u8> {
    seq![13u8, 10u8]
}

impl Response {
    /// The status as it stands.
    pub closed spec fn status_now(&self) -> StatusCode {
        self.status
    }

    /// The headers as they stand.
    pub closed spec fn headers_now(&self) -> Headers {
        self.headers
    }

    /// The bytes produced for the wire so far.
    pub closed spec fn sent(&self) -> Seq<u8> {
        self.wire@
    }

    /// Whether the head has been produced.
    pub closed spec fn head_sent(&self) -> bool {
        self.is_header_written
    }

    /// Whether the body has been produced.
    pub closed spec fn body_sent(&self) -> bool {
        self.is_body_written
    }

    /// The response is as `new` makes it: status 200, no headers, nothing
    /// sent.
    pub open spec fn untouched(&self) -> bool {
        &&& self.status_now() == StatusCode::OK
        &&& self.headers_now()@ == Map::<Seq<char>, Seq<Seq<char>>>::empty()
        &&& self.sent() == Seq::<u8>::empty()
        &&& !self.head_sent()
        &&& !self.body_sent()
    }

    /// A response with status 200, no headers and nothing sent.
    pub fn new() -> (res: Response)
        ensures
            res.untouched(),
    {
        Response {
            status: StatusCode::OK,
            headers: Headers::new(),
            wire: Vec::new(),
            is_header_written: false,
            is_body_written: false,
        }
    }

    /// Sets the status.
    pub fn status(&mut self, status: StatusCode) -> (res: &mut Self)
        ensures
            res.status_now() == status,
            res.headers_now() == old(self).headers_now(),
            res.sent() == old(self).sent(),
            res.head_sent() == old(self).head_sent(),
            res.body_sent() == old(self).body_sent(),
            *final(self) == *final(res),
    {
        self.status = status;
        self
    }

    /// Sets the `Content-Type` header.
    pub fn content_type(&mut self, content_type: &str) -> (res: &mut Self)
        ensures
            res.status_now() == old(self).status_now(),
            res.headers_now()@ == old(self).headers_now()@.insert(
                "Content-Type"@,
                seq![content_type@],
            ),
            res.headers_now().entries() == put(
                old(self).headers_now().entries(),
                "Content-Type"@,
                seq![content_type@],
            ),
            res.sent() == old(self).sent(),
            res.head_sent() == old(self).head_sent(),
            res.body_sent() == old(self).body_sent(),
            *final(self) == *final(res),
    {
        self.headers.set("Content-Type".to_owned(), content_type.to_owned());
        self
    }

    /// The bytes produced so far.
    pub fn wire(&self) -> (bytes: &Vec<u8>)
        ensures
            bytes@ == self.sent(),
    {
        &self.wire
    }

    /// Whether the head has been produced.
    pub fn is_header_written(&self) -> (written: bool)
        ensures
            written == self.head_sent(),
    {
        self.is_header_written
    }

    /// Whether the body has been produced.
    pub fn is_body_written(&self) -> (written: bool)
        ensures
            written == self.body_sent(),
    {
        self.is_body_written
    }

    /// The header lines of `headers`, one for each value.
    fn headers_lines(headers: &Headers) -> (text: String)
        ensures
            text@ == headers_text(*headers, headers.entries().len()),
    {
        let mut text = String::new();
        let mut i: usize = 0;
        while i < headers.len()
            invariant
                i <= headers.entries().len(),
                text@ == headers_text(*headers, i as nat),
            decreases headers.entries().len() - i,
        {
            let (name, values) = headers.entry(i);
            let ghost before = text@;
            let mut j: usize = 0;
            assert(values.deep_view().take(0) =~= Seq::<Seq<char>>::empty());
            while j < values.len()
                invariant
                    j <= values@.len(),
                    text@ == before + header_lines(name@, values.deep_view().take(j as int)),
                decreases values@.len() - j,
            {
                let ghost done = values.deep_view().take(j as int);
                let ghost next = values.deep_view().take(j + 1);
                proof {
                    assert(next.drop_last() =~= done);
                    assert(next.last() == values@[j as int]@);
                }
                text.append(name.as_str());
                text.append(": ");
                text.append(values[j].as_str());
                text.append("\r\n");
                proof {
                    assert(text@ =~= before + header_lines(name@, next));
                }
                j = j + 1;
            }
            proof {
                assert(values.deep_view().len() == values@.len());
                assert(values.deep_view().take(values@.len() as int) =~= values.deep_view());
            }
            i = i + 1;
        }
        text
    }

    /// Produces the head: the status line and one line for each header
    /// value. A head that was produced before is not produced again.
    pub fn send_headers(&mut self) -> (result: Result<Return, Failure>)
        ensures
            result == Ok::<Return, Failure>(Return::End),
            final(self).status_now() == old(self).status_now(),
            final(self).headers_now() == old(self).headers_now(),
            final(self).body_sent() == old(self).body_sent(),
            final(self).head_sent(),
            final(self).sent() == if old(self).head_sent() {
                old(self).sent()
            } else {
                old(self).sent() + encode_utf8(
                    head_text(old(self).status_now(), old(self).headers_now()),
                )
            },
    {
        if self.is_header_written {
            return Ok(Return::End);
        }
        let mut head = String::new();
        head.append(HTTP_PROTOCOL);
        head.append(" ");
        head.append(self.status.to_string().as_str());
        head.append(" ");
        head.append(self.status.reason_phrase());
        head.append("\r\n");
        head.append(Self::headers_lines(&self.headers).as_str());
        proof {
            assert(head@ =~= head_text(self.status, self.headers));
        }
        let mut bytes = head.as_str().as_bytes_vec();
        self.wire.append(&mut bytes);
        self.is_header_written = true;
        Ok(Return::End)
    }

    /// Produces the body: states its length in the `Content-Length` header,
    /// produces the head if that is still to come, and then the line break
    /// and the body. A body that was produced before is not produced again.
    pub fn send_body(&mut self, body: Vec<u8>) -> (result: Result<Return, Failure>)
        ensures
            result == Ok::<Return, Failure>(Return::End),
            final(self).status_now() == old(self).status_now(),
            final(self).body_sent(),
            old(self).body_sent() ==> {
                &&& final(self).sent() == old(self).sent()
                &&& final(self).headers_now() == old(self).headers_now()
                &&& final(self).head_sent() == old(self).head_sent()
            },
            !old(self).body_sent() ==> {
                &&& final(self).head_sent()
                &&& final(self).headers_now()@ == old(self).headers_now()@.insert(
                    "Content-Length"@,
                    seq![decimal(body@.len())],
                )
                &&& final(self).headers_now().entries() == put(
                    old(self).headers_now().entries(),
                    "Content-Length"@,
                    seq![decimal(body@.len())],
                )
                &&& final(self).sent() == old(self).sent() + (if old(self).head_sent() {
                    Seq::<u8>::empty()
                } else {
                    encode_utf8(head_text(final(self).status_now(), final(self).headers_now()))
                }) + line_break() + body@
            },
    {
        if self.is_body_written {
            return Ok(Return::End);
        }
        let ghost start = self.wire@;
        self.headers.set("Content-Length".to_owned(), decimal_of(body.len()));
        let _ = self.send_headers();
        let ghost middle = self.wire@;
        self.wire.push(13u8);
        self.wire.push(10u8);
        let mut body = body;
        let ghost content = body@;
        self.wire.append(&mut body);
        self.is_body_written = true;
        proof {
            assert(self.wire@ =~= middle + line_break() + content);
            assert(start + Seq::<u8>::empty() =~= start);
        }
        Ok(Return::End)
    }
}

impl Response {
    /// Answers a failed dispatch: makes the response a plain-text
    /// `500 Internal Server Error` and produces `text` as its body. Where
    /// the head is out already, the status and the headers come too late
    /// for the wire; where the body is out already, nothing more is
    /// produced.
    pub fn fail(&mut self, text: String) -> (result: Result<Return, Failure>)
        ensures
            result == Ok::<Return, Failure>(Return::End),
            final(self).status_now() == StatusCode::InternalServerError,
            final(self).body_sent(),
            old(self).body_sent() ==> {
                &&& final(self).sent() == old(self).sent()
                &&& final(self).head_sent() == old(self).head_sent()
                &&& final(self).headers_now().entries() == put(
                    old(self).headers_now().entries(),
                    "Content-Type"@,
                    seq!["text/plain"@],
                )
            },
            !old(self).body_sent() ==> {
                &&& final(self).head_sent()
                &&& final(self).headers_now().entries() == put(
                    put(old(self).headers_now().entries(), "Content-Type"@, seq!["text/plain"@]),
                    "Content-Length"@,
                    seq![decimal(encode_utf8(text@).len())],
                )
                &&& final(self).sent() == old(self).sent() + (if old(self).head_sent() {
                    Seq::<u8>::empty()
                } else {
                    encode_utf8(head_text(final(self).status_now(), final(self).headers_now()))
                }) + line_break() + encode_utf8(text@)
            },
    {
        self.content_type("text/plain");
        self.status(StatusCode::InternalServerError);
        self.send_body(text.as_str().as_bytes_vec())
    }
}

} // verus!
