//! Reading the head of a request: the request line and the header lines.
//!
//! The caller reads the lines, each with its line break, and feeds them to a
//! `Head` one by one; the `Head` says after each whether to go on.

pub mod error;

use vstd::prelude::*;
use vstd::utf8::{decode_utf8, valid_utf8};
use crate::header::{put, values_in, Headers};
use crate::request::{Location, Method, Request};
use crate::text::{
    chars_of, decoded, find, lemma_find, lowercase, split, split_on, str_eq, string_of, to_lower,
    trim, trimmed,
};
use self::error::Error;

verus! {

/// The limit on the length of a head, in bytes: the request line and all
/// header lines, line breaks included.
pub const BUFFER_SIZE: usize = 4096;

/// The method that a token in lower case names.
pub open spec fn method_named(lowered: Seq<char>) -> Option<Method> {
    if lowered == "get"@ {
        Some(Method::Get)
    } else if lowered == "post"@ {
        Some(Method::Post)
    } else {
        None
    }
}

/// The method that `lowered`, a method token in lower case, names.
pub fn method_of(lowered: &str) -> (method: Option<Method>)
    ensures
        method == method_named(lowered@),
{
    if str_eq(lowered, "get") {
        Some(Method::Get)
    } else if str_eq(lowered, "post") {
        Some(Method::Post)
    } else {
        None
    }
}

/// Whether `lowered`, a protocol token in lower case, names the protocol
/// that this library speaks.
pub fn is_protocol(lowered: &str) -> (supported: bool)
    ensures
        supported == (lowered@ == "http/1.1"@),
{
    str_eq(lowered, "http/1.1")
}

/// Whether `location` is what the request line `buf` says, or `error` what
/// is wrong with it.
///
/// The line must be valid UTF-8 and hold exactly three tokens between single
/// spaces: a method, which must be `get` or `post` in any case; a target;
/// and, with white space around it allowed, the protocol, which must be
/// `http/1.1` in any case.
pub open spec fn reads_location(buf: Seq<u8>, result: Result<Location, Error>) -> bool {
    let tokens = split(decode_utf8(buf), ' ');
    match result {
        Err(Error::InvalidEncoding) => !valid_utf8(buf),
        Err(Error::InvalidLocationFormat) => valid_utf8(buf) && tokens.len() != 3,
        Err(Error::UnsupportedMethod(method)) => {
            &&& valid_utf8(buf)
            &&& tokens.len() == 3
            &&& method@ == lowercase(tokens[0])
            &&& method_named(method@) is None
        },
        Err(Error::UnsupportedProtocol(protocol)) => {
            &&& valid_utf8(buf)
            &&& tokens.len() == 3
            &&& method_named(lowercase(tokens[0])) is Some
            &&& protocol@ == lowercase(trim(tokens[2]))
            &&& protocol@ != "http/1.1"@
        },
        Ok(location) => {
            &&& valid_utf8(buf)
            &&& tokens.len() == 3
            &&& method_named(lowercase(tokens[0])) == Some(location.0)
            &&& lowercase(trim(tokens[2])) == "http/1.1"@
            &&& location.1@ == tokens[1]
        },
        Err(_) => false,
    }
}

/// Reads a request line.
pub fn parse_location(buf: &Vec<u8>) -> (result: Result<Location, Error>)
    ensures
        reads_location(buf@, result),
{
    let text = match decoded(buf) {
        Some(text) => text,
        None => {
            return Err(Error::InvalidEncoding);
        },
    };
    let tokens = split_on(text.as_str(), ' ');
    assert(tokens.deep_view().len() == tokens@.len());
    if tokens.len() != 3 {
        return Err(Error::InvalidLocationFormat);
    }
    proof {
        assert(tokens.deep_view()[0] == tokens@[0]@);
        assert(tokens.deep_view()[1] == tokens@[1]@);
        assert(tokens.deep_view()[2] == tokens@[2]@);
    }
    let name = to_lower(tokens[0].as_str());
    let method = match method_of(name.as_str()) {
        Some(method) => method,
        None => {
            return Err(Error::UnsupportedMethod(name));
        },
    };
    let protocol = to_lower(trimmed(tokens[2].as_str()).as_str());
    if !is_protocol(protocol.as_str()) {
        return Err(Error::UnsupportedProtocol(protocol));
    }
    Ok(Location(method, tokens[1].clone()))
}

/// Whether `result` is what the header line `buf` says.
///
/// The line must be valid UTF-8 and hold a colon. The name is what stands
/// before the first colon, the value what stands behind it without the
/// white space around it; both are handed out in lower case.
pub open spec fn reads_header(buf: Seq<u8>, result: Result<(String, String), Error>) -> bool {
    let text = decode_utf8(buf);
    let colon = find(text, ':');
    match result {
        Err(Error::InvalidEncoding) => !valid_utf8(buf),
        Err(Error::InvalidHeaderEntryFormat) => valid_utf8(buf) && colon >= text.len(),
        Ok((name, value)) => {
            &&& valid_utf8(buf)
            &&& 0 <= colon < text.len()
            &&& name@ == lowercase(text.take(colon))
            &&& value@ == lowercase(trim(text.skip(colon + 1)))
        },
        Err(_) => false,
    }
}

/// Reads a header line.
pub fn parse_header(buf: &Vec<u8>) -> (result: Result<(String, String), Error>)
    ensures
        reads_header(buf@, result),
{
    let text = match decoded(buf) {
        Some(text) => text,
        None => {
            return Err(Error::InvalidEncoding);
        },
    };
    let chars = chars_of(text.as_str());
    let n = chars.len();
    let mut colon: usize = 0;
    while colon < n && chars[colon] != ':'
        invariant
            colon <= n == chars@.len(),
            forall|j: int| 0 <= j < colon ==> chars@[j] != ':',
        decreases n - colon,
    {
        colon = colon + 1;
    }
    proof {
        lemma_find(chars@, ':', colon as int);
    }
    if colon >= n {
        return Err(Error::InvalidHeaderEntryFormat);
    }
    let name = string_of(&chars, 0, colon);
    let value = string_of(&chars, colon + 1, n);
    proof {
        assert(chars@.subrange(0, colon as int) =~= text@.take(colon as int));
        assert(chars@.subrange(colon + 1, n as int) =~= text@.skip(colon + 1));
    }
    Ok((to_lower(name.as_str()), to_lower(trimmed(value.as_str()).as_str())))
}

/// What the reader of a head does after a line.
#[derive(Debug, PartialEq, Eq, Structural, Clone, Copy)]
pub enum Progress {
    /// Read the next line.
    More,
    /// The head ended with a blank line; what follows is the body.
    Body,
    /// The input ended; there is no body.
    End,
}

/// Whether `line` is a blank line: a line feed alone, or behind a carriage
/// return.
pub open spec fn blank(line: Seq<u8>) -> bool {
    line == seq![10u8] || line == seq![13u8, 10u8]
}

/// The head of a request as far as it has been read.
pub struct Head {
    location: Option<Location>,
    headers: Headers,
    first: bool,
    size: usize,
}

impl Head {
    /// The request line, once it has been read.
    pub closed spec fn location(&self) -> Option<Location> {
        self.location
    }

    /// The headers read so far.
    pub closed spec fn headers(&self) -> Headers {
        self.headers
    }

    /// Whether the line that comes next is the first.
    pub closed spec fn at_start(&self) -> bool {
        self.first
    }

    /// The number of bytes read so far.
    pub closed spec fn size(&self) -> nat {
        self.size as nat
    }

    /// A head of which nothing has been read.
    pub fn new() -> (head: Head)
        ensures
            head.location() is None,
            head.headers()@ == Map::<Seq<char>, Seq<Seq<char>>>::empty(),
            head.at_start(),
            head.size() == 0,
    {
        Head { location: None, headers: Headers::new(), first: true, size: 0 }
    }

    /// Takes the next line, as it was read up to and including its line
    /// feed; an empty `line` stands for the end of the input.
    ///
    /// A line that takes the head over the limit fails. The end of the
    /// input and a blank line end the head. The first line otherwise is the
    /// request line; every other line is a header line, whose value goes
    /// behind the values that its name has.
    pub fn feed(&mut self, line: &Vec<u8>) -> (result: Result<Progress, Error>)
        ensures
            old(self).size() + line@.len() > BUFFER_SIZE ==> {
                &&& result matches Err(Error::HeaderTooLong(limit))
                &&& limit == BUFFER_SIZE
                &&& final(self).size() == old(self).size()
                &&& final(self).at_start() == old(self).at_start()
                &&& final(self).location() == old(self).location()
                &&& final(self).headers() == old(self).headers()
            },
            old(self).size() + line@.len() <= BUFFER_SIZE ==> {
                &&& final(self).size() == old(self).size() + line@.len()
                &&& !final(self).at_start()
                &&& if line@.len() == 0 {
                    &&& result == Ok::<Progress, Error>(Progress::End)
                    &&& final(self).location() == old(self).location()
                    &&& final(self).headers() == old(self).headers()
                } else if blank(line@) {
                    &&& result == Ok::<Progress, Error>(Progress::Body)
                    &&& final(self).location() == old(self).location()
                    &&& final(self).headers() == old(self).headers()
                } else if old(self).at_start() {
                    &&& final(self).headers() == old(self).headers()
                    &&& match result {
                        Ok(progress) => progress == Progress::More && (final(self).location() matches Some(
                            location,
                        ) && reads_location(line@, Ok(location))),
                        Err(error) => reads_location(line@, Err(error)) && final(self).location()
                            == old(self).location(),
                    }
                } else {
                    &&& final(self).location() == old(self).location()
                    &&& match result {
                        Ok(progress) => progress == Progress::More && exists|
                            name: String,
                            value: String,
                        |
                            {
                                &&& reads_header(line@, Ok((name, value)))
                                &&& final(self).headers()@ == old(self).headers()@.insert(
                                    name@,
                                    if old(self).headers()@.contains_key(name@) {
                                        old(self).headers()@[name@].push(value@)
                                    } else {
                                        seq![value@]
                                    },
                                )
                                &&& final(self).headers().entries() == put(
                                    old(self).headers().entries(),
                                    name@,
                                    values_in(old(self).headers().entries(), name@).push(value@),
                                )
                            },
                        Err(error) => reads_header(line@, Err(error)) && final(self).headers()
                            == old(self).headers(),
                    }
                }
            },
    {
        let res = line.len();
        if res > BUFFER_SIZE || self.size > BUFFER_SIZE - res {
            return Err(Error::HeaderTooLong(BUFFER_SIZE));
        }
        let first = self.first;
        self.size = self.size + res;
        self.first = false;
        if res == 0 {
            return Ok(Progress::End);
        }
        if (res == 1 && line[0] == 10u8) || (res == 2 && line[0] == 13u8 && line[1] == 10u8) {
            proof {
                if res == 1 {
                    assert(line@ =~= seq![10u8]);
                } else {
                    assert(line@ =~= seq![13u8, 10u8]);
                }
            }
            return Ok(Progress::Body);
        }
        proof {
            if line@ == seq![10u8] {
                assert(line@.len() == 1 && line@[0] == 10u8);
            }
            if line@ == seq![13u8, 10u8] {
                assert(line@.len() == 2 && line@[0] == 13u8 && line@[1] == 10u8);
            }
        }
        if first {
            match parse_location(line) {
                Ok(location) => {
                    self.location = Some(location);
                    Ok(Progress::More)
                },
                Err(error) => Err(error),
            }
        } else {
            match parse_header(line) {
                Ok((name, value)) => {
                    proof {
                        assert(reads_header(line@, Ok((name, value))));
                    }
                    self.headers.append(name, value);
                    Ok(Progress::More)
                },
                Err(error) => Err(error),
            }
        }
    }

    /// Makes the request of the head that was read, with `body` for its
    /// body. A head without a request line, or with one whose target is
    /// empty, makes none.
    pub fn finish(self, body: Option<Vec<u8>>) -> (result: Result<Request, Error>)
        ensures
            match result {
                Ok(request) => {
                    &&& self.location() matches Some(location)
                    &&& location.1@.len() > 0
                    &&& request.spec_location() == location
                    &&& request.spec_headers() == self.headers()
                    &&& request.spec_body() == body
                },
                Err(error) => {
                    &&& error matches Error::EmptyRequest
                    &&& (self.location() matches Some(location) ==> location.1@.len() == 0)
                },
            },
    {
        match self.location {
            Some(location) => {
                if location.1.as_str().is_empty() {
                    return Err(Error::EmptyRequest);
                }
                let mut request = Request::new(body);
                request.set_location(location);
                request.set_headers(self.headers);
                Ok(request)
            },
            None => Err(Error::EmptyRequest),
        }
    }
}

} // verus!
