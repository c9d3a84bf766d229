//! HTTP request methods.

use vstd::prelude::*;

verus! {

/// Number of distinct [`Method`] values.
pub const METHOD_COUNT: usize = 10;

/// The request method of a log record. `Unparsed` marks a record whose
/// request line could not be read; it never stands for a real verb.
#[derive(Clone, Copy, Debug, PartialEq, Eq, Structural, Hash)]
pub enum Method {
    Get,
    Head,
    Post,
    Put,
    Delete,
    Connect,
    Options,
    Trace,
    Patch,
    Unparsed,
}

impl Method {
    /// Position of the method in a per-method table.
    pub open spec fn spec_index(self) -> int {
        match self {
            Method::Get => 0,
            Method::Head => 1,
            Method::Post => 2,
            Method::Put => 3,
            Method::Delete => 4,
            Method::Connect => 5,
            Method::Options => 6,
            Method::Trace => 7,
            Method::Patch => 8,
            Method::Unparsed => 9,
        }
    }

    /// The method that stands at a given position of a per-method table.
    pub open spec fn spec_at(i: int) -> Method {
        if i == 0 {
            Method::Get
        } else if i == 1 {
            Method::Head
        } else if i == 2 {
            Method::Post
        } else if i == 3 {
            Method::Put
        } else if i == 4 {
            Method::Delete
        } else if i == 5 {
            Method::Connect
        } else if i == 6 {
            Method::Options
        } else if i == 7 {
            Method::Trace
        } else if i == 8 {
            Method::Patch
        } else {
            Method::Unparsed
        }
    }

    /// The method's upper-case token as it appears in a request line.
    pub open spec fn spec_name(self) -> Seq<char> {
        match self {
            Method::Get => "GET"@,
            Method::Head => "HEAD"@,
            Method::Post => "POST"@,
            Method::Put => "PUT"@,
            Method::Delete => "DELETE"@,
            Method::Connect => "CONNECT"@,
            Method::Options => "OPTIONS"@,
            Method::Trace => "TRACE"@,
            Method::Patch => "PATCH"@,
            Method::Unparsed => "UNPARSED"@,
        }
    }

    /// The method a token names: one of the nine standard verbs, spelled
    /// exactly in upper case, or `Unparsed` for anything else.
    pub open spec fn of_token(token: Seq<char>) -> Method {
        if token == "GET"@ {
            Method::Get
        } else if token == "HEAD"@ {
            Method::Head
        } else if token == "POST"@ {
            Method::Post
        } else if token == "PUT"@ {
            Method::Put
        } else if token == "DELETE"@ {
            Method::Delete
        } else if token == "CONNECT"@ {
            Method::Connect
        } else if token == "OPTIONS"@ {
            Method::Options
        } else if token == "TRACE"@ {
            Method::Trace
        } else if token == "PATCH"@ {
            Method::Patch
        } else {
            Method::Unparsed
        }
    }

    /// Position of the method in a per-method table.
    pub fn index(self) -> (i: usize)
        ensures
            i == self.spec_index(),
            i < METHOD_COUNT,
            Method::spec_at(i as int) == self,
    {
        match self {
            Method::Get => 0,
            Method::Head => 1,
            Method::Post => 2,
            Method::Put => 3,
            Method::Delete => 4,
            Method::Connect => 5,
            Method::Options => 6,
            Method::Trace => 7,
            Method::Patch => 8,
            Method::Unparsed => 9,
        }
    }

    /// The method at a position of a per-method table; `Unparsed` beyond
    /// the last.
    pub fn at(i: usize) -> (m: Method)
        ensures
            m == Method::spec_at(i as int),
            i < METHOD_COUNT ==> m.spec_index() == i,
    {
        if i == 0 {
            Method::Get
        } else if i == 1 {
            Method::Head
        } else if i == 2 {
            Method::Post
        } else if i == 3 {
            Method::Put
        } else if i == 4 {
            Method::Delete
        } else if i == 5 {
            Method::Connect
        } else if i == 6 {
            Method::Options
        } else if i == 7 {
            Method::Trace
        } else if i == 8 {
            Method::Patch
        } else {
            Method::Unparsed
        }
    }

    /// The method's upper-case token.
    pub fn name(self) -> (s: &'static str)
        ensures
            s@ == self.spec_name(),
    {
        match self {
            Method::Get => "GET",
            Method::Head => "HEAD",
            Method::Post => "POST",
            Method::Put => "PUT",
            Method::Delete => "DELETE",
            Method::Connect => "CONNECT",
            Method::Options => "OPTIONS",
            Method::Trace => "TRACE",
            Method::Patch => "PATCH",
            Method::Unparsed => "UNPARSED",
        }
    }

    /// Reads a method token.
    pub fn from_token(token: &str) -> (m: Method)
        ensures
            m == Method::of_token(token@),
    {
        standard_method(token)
    }
}

/// Calls `hyper::Method::from_str` (through `str::parse`) and tells the nine
/// standard constants apart. That parser returns the constant `GET` exactly
/// for the bytes `GET`, and likewise for the other eight verbs; every other
/// token gives an extension method or an error, which both map to `Unparsed`.
#[verifier::external_body]
fn standard_method(token: &str) -> (m: Method)
    ensures
        m == Method::of_token(token@),
{
    match token.parse::<hyper::Method>() {
        Ok(hyper::Method::GET) => Method::Get,
        Ok(hyper::Method::HEAD) => Method::Head,
        Ok(hyper::Method::POST) => Method::Post,
        Ok(hyper::Method::PUT) => Method::Put,
        Ok(hyper::Method::DELETE) => Method::Delete,
        Ok(hyper::Method::CONNECT) => Method::Connect,
        Ok(hyper::Method::OPTIONS) => Method::Options,
        Ok(hyper::Method::TRACE) => Method::Trace,
        Ok(hyper::Method::PATCH) => Method::Patch,
        _ => Method::Unparsed,
    }
}

} // verus!
