//! The parsed head of a request, and its body as the caller read it.

use vstd::prelude::*;
use crate::header::Headers;

verus! {

/// A request method. `All` is a registration wildcard: no request on the
/// wire carries it.
#[derive(Debug, PartialEq, Eq, Structural, Clone, Copy)]
pub enum Method {
    All,
    Post,
    Get,
}

pub type URI = String;

/// The method and the target of a request line.
#[derive(Debug)]
pub struct Location(pub Method, pub URI);

#[derive(Debug)]
pub struct Request {
    location: Location,
    headers: Headers,
    body: Option<Vec<u8>>,
}

impl Request {
    pub closed spec fn spec_location(&self) -> Location {
        self.location
    }

    pub closed spec fn spec_headers(&self) -> Headers {
        self.headers
    }

    pub closed spec fn spec_body(&self) -> Option<Vec<u8>> {
        self.body
    }

    /// A `GET` of the empty target without headers, holding `body`.
    pub fn new(body: Option<Vec<u8>>) -> (req: Request)
        ensures
            req.spec_location().0 == Method::Get,
            req.spec_location().1@ == Seq::<char>::empty(),
            req.spec_headers()@ == Map::<Seq<char>, Seq<Seq<char>>>::empty(),
            req.spec_body() == body,
    {
        Request { headers: Headers::new(), location: Location(Method::Get, String::new()), body }
    }

    pub fn location(&self) -> (loc: &Location)
        ensures
            *loc == self.spec_location(),
    {
        &self.location
    }

    pub fn headers(&self) -> (headers: &Headers)
        ensures
            *headers == self.spec_headers(),
    {
        &self.headers
    }

    pub fn body(&self) -> (body: &Option<Vec<u8>>)
        ensures
            *body == self.spec_body(),
    {
        &self.body
    }

    /// The number of bytes of body that the head announces: what the
    /// `content-length` header states, and none where it states no length.
    pub fn body_length(&self) -> (length: usize)
        ensures
            length == match self.spec_headers().stated_length() {
                Some(n) => if n <= usize::MAX {
                    n as usize
                } else {
                    0
                },
                None => 0,
            },
    {
        match self.headers.content_length() {
            Some(length) => length,
            None => 0,
        }
    }

    pub fn set_body(&mut self, body: Option<Vec<u8>>)
        ensures
            final(self).spec_body() == body,
            final(self).spec_location() == old(self).spec_location(),
            final(self).spec_headers() == old(self).spec_headers(),
    {
        self.body = body
    }

    pub fn set_location(&mut self, loc: Location)
        ensures
            final(self).spec_location() == loc,
            final(self).spec_body() == old(self).spec_body(),
            final(self).spec_headers() == old(self).spec_headers(),
    {
        self.location = loc
    }

    pub fn set_headers(&mut self, headers: Headers)
        ensures
            final(self).spec_headers() == headers,
            final(self).spec_body() == old(self).spec_body(),
            final(self).spec_location() == old(self).spec_location(),
    {
        self.headers = headers
    }
}

} // verus!
