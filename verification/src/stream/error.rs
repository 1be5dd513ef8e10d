//! What can be wrong with the head of a request.

use vstd::prelude::*;
use vstd::string::StringExecFns;
use crate::text::{decimal, decimal_of};

verus! {

#[derive(Debug)]
pub enum Error {
    /// The request line and the header lines together are longer than the
    /// limit, which the error carries.
    HeaderTooLong(usize),
    /// The request line does not consist of three tokens.
    InvalidLocationFormat,
    /// A header line holds no colon.
    InvalidHeaderEntryFormat,
    /// There is no request line, or it names no target.
    EmptyRequest,
    /// The method, given in lower case, is neither `get` nor `post`.
    UnsupportedMethod(String),
    /// The protocol, given in lower case, is not `http/1.1`.
    UnsupportedProtocol(String),
    /// A line is not valid UTF-8.
    InvalidEncoding,
}

impl Error {
    /// The text of the error.
    pub open spec fn message(&self) -> Seq<char> {
        match self {
            Error::HeaderTooLong(size) => "Header is too long, exceeded size limit: "@ + decimal(
                *size as nat,
            ),
            Error::InvalidLocationFormat => "Invalid location format"@,
            Error::InvalidHeaderEntryFormat => "Invalid header entry format"@,
            Error::EmptyRequest => "Empty request"@,
            Error::UnsupportedMethod(method) => "Invalid request method: "@ + method@,
            Error::UnsupportedProtocol(protocol) => "Invalid request protocol: "@ + protocol@,
            Error::InvalidEncoding => "Invalid encoding"@,
        }
    }

    pub fn to_string(&self) -> (text: String)
        ensures
            text@ == self.message(),
    {
        match self {
            Error::HeaderTooLong(size) => {
                let mut text = String::from_str("Header is too long, exceeded size limit: ");
                text.append(decimal_of(*size).as_str());
                text
            },
            Error::InvalidLocationFormat => String::from_str("Invalid location format"),
            Error::InvalidHeaderEntryFormat => String::from_str("Invalid header entry format"),
            Error::EmptyRequest => String::from_str("Empty request"),
            Error::UnsupportedMethod(method) => {
                let mut text = String::from_str("Invalid request method: ");
                text.append(method.as_str());
                text
            },
            Error::UnsupportedProtocol(protocol) => {
                let mut text = String::from_str("Invalid request protocol: ");
                text.append(protocol.as_str());
                text
            },
            Error::InvalidEncoding => String::from_str("Invalid encoding"),
        }
    }
}

} // verus!
