//! Reading the method and the path off a request line.

use crate::http_server::Method;
use crate::text::{split, split_on};
use vstd::prelude::*;

verus! {

/// Why a request line was refused.
#[derive(Clone, Copy, Debug, PartialEq, Eq, Structural)]
pub enum RequestError {
    /// The line has fewer than two fields.
    Malformed,
    /// The first field names no method that the server knows.
    MethodNotSupported,
}

impl RequestError {
    /// The failure in words.
    pub fn message(&self) -> (text: &'static str)
        ensures
            text@ == match *self {
                RequestError::Malformed => "request error"@,
                RequestError::MethodNotSupported => "method not support"@,
            },
    {
        match self {
            RequestError::Malformed => "request error",
            RequestError::MethodNotSupported => "method not support",
        }
    }
}

/// The method and the path of a request.
#[derive(Debug)]
pub struct Request {
    pub method: Method,
    pub path: String,
}

/// The method that a field of a request line names, if any.
pub open spec fn method_of(name: Seq<char>) -> Option<Method> {
    if name == "GET"@ {
        Some(Method::Get)
    } else if name == "POST"@ {
        Some(Method::Post)
    } else {
        None
    }
}

/// The method and the path that a request line asks for. The fields of the
/// line are separated by single spaces; the first is the method, the second
/// the path, and what follows them is not read.
pub open spec fn parse(line: Seq<char>) -> Result<(Method, Seq<char>), RequestError> {
    let fields = split(line, ' ');
    if fields.len() < 2 {
        Err(RequestError::Malformed)
    } else {
        match method_of(fields[0]) {
            Some(method) => Ok((method, fields[1])),
            None => Err(RequestError::MethodNotSupported),
        }
    }
}

/// Parses a request line.
pub fn parse_request_line(line: &str) -> (parsed: Result<Request, RequestError>)
    ensures
        match parsed {
            Ok(request) => parse(line@) == Ok::<(Method, Seq<char>), RequestError>(
                (request.method, request.path@),
            ),
            Err(e) => parse(line@) == Err::<(Method, Seq<char>), RequestError>(e),
        },
{
    let fields = split_on(line, ' ');
    if fields.len() < 2 {
        return Err(RequestError::Malformed);
    }
    assert(fields.deep_view()[0] == fields[0]@);
    assert(fields.deep_view()[1] == fields[1]@);
    let method = if fields[0] == String::from_str("GET") {
        Method::Get
    } else if fields[0] == String::from_str("POST") {
        Method::Post
    } else {
        return Err(RequestError::MethodNotSupported);
    };
    Ok(Request { method, path: fields[1].clone() })
}

} // verus!
