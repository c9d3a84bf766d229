//! Canonical requests, as the aggregation takes them in.

use crate::method::Method;
use crate::metrics::Sample;
use crate::path::{normalize_path, spec_normalize, spec_strip_minutes, strip_minutes};
use vstd::prelude::*;

verus! {

/// One log record in canonical form.
#[derive(Debug)]
pub struct NormalizedRequest {
    pub hour_timestamp: String,
    pub method: Method,
    pub normalized_path: String,
    pub bytes_sent: u32,
    pub duration_ms: u64,
    pub status_code: u16,
}

impl NormalizedRequest {
    /// The figures of the request.
    pub open spec fn spec_sample(&self) -> Sample {
        Sample {
            bytes_sent: self.bytes_sent,
            duration_ms: self.duration_ms,
            status_code: self.status_code,
        }
    }

    /// The figures of the request.
    pub fn sample(&self) -> (s: Sample)
        ensures
            s == self.spec_sample(),
    {
        Sample {
            bytes_sent: self.bytes_sent,
            duration_ms: self.duration_ms,
            status_code: self.status_code,
        }
    }
}

/// A request line: one of the nine method tokens, a space, and a path that
/// starts with `/` and runs up to the first whitespace, `?` or `#`.
pub const REQUEST_PATTERN: &'static str =
    "^(GET|HEAD|POST|PUT|DELETE|CONNECT|OPTIONS|TRACE|PATCH) (/[^\\s\\?#]*)";

/// What `regex::Regex::captures` finds for a pattern in a text: the text
/// of each capture group, group 0 being the whole match, with `None` for a
/// group that took no part. `None` where there is no match or the pattern
/// does not compile.
pub uninterp spec fn pattern_groups(pattern: Seq<char>, text: Seq<char>) -> Option<
    Seq<Option<Seq<char>>>,
>;

/// The texts of the capture groups of a match.
pub open spec fn group_texts(groups: Option<Vec<Option<String>>>) -> Option<
    Seq<Option<Seq<char>>>,
> {
    match groups {
        Some(v) => Some(
            Seq::new(
                v@.len(),
                |i: int|
                    match v@[i] {
                        Some(t) => Some(t@),
                        None => None,
                    },
            ),
        ),
        None => None,
    }
}

/// Compiles the pattern with `regex::Regex::new`, calls
/// `regex::Regex::captures` on the text and copies out the text of each
/// group of the match. Both calls depend on their arguments alone.
#[verifier::external_body]
fn regex_captures(pattern: &str, text: &str) -> (r: Option<Vec<Option<String>>>)
    ensures
        group_texts(r) == pattern_groups(pattern@, text@),
{
    match regex::Regex::new(pattern) {
        Ok(re) => re.captures(text).map(
            |c| c.iter().map(|g| g.map(|m| m.as_str().to_string())).collect(),
        ),
        Err(_) => None,
    }
}

/// Method and path template of a request line.
#[derive(Debug)]
pub struct RequestPath {
    pub http_method: Method,
    pub path: String,
}

/// Whether the groups of a match name a method and a path: there are at
/// least three groups, the first two after the whole match took part, and
/// the first is a method token.
pub open spec fn groups_recognized(groups: Option<Seq<Option<Seq<char>>>>) -> bool {
    &&& groups is Some
    &&& groups->0.len() >= 3
    &&& groups->0[1] is Some
    &&& groups->0[2] is Some
    &&& Method::of_token(groups->0[1]->0) != Method::Unparsed
}

/// The method that the groups of a match give: `Unparsed` unless they are
/// recognized.
pub open spec fn spec_method_of(groups: Option<Seq<Option<Seq<char>>>>) -> Method {
    if groups_recognized(groups) {
        Method::of_token(groups->0[1]->0)
    } else {
        Method::Unparsed
    }
}

/// The path template that the groups of a match give: empty unless they
/// are recognized.
pub open spec fn spec_path_of(groups: Option<Seq<Option<Seq<char>>>>) -> Seq<char> {
    if groups_recognized(groups) {
        spec_normalize(groups->0[2]->0)
    } else {
        Seq::empty()
    }
}

impl Default for RequestPath {
    /// The sentinel of a request line that was not recognized.
    fn default() -> (r: RequestPath)
        ensures
            r.http_method == Method::Unparsed,
            r.path@ == Seq::<char>::empty(),
    {
        RequestPath { http_method: Method::Unparsed, path: String::new() }
    }
}

/// Method and path template from the capture groups of a request line.
pub fn request_path_of(groups: &Option<Vec<Option<String>>>) -> (r: RequestPath)
    ensures
        r.http_method == spec_method_of(group_texts(*groups)),
        r.path@ == spec_path_of(group_texts(*groups)),
        r.http_method == Method::Unparsed ==> r.path@.len() == 0,
{
    match groups {
        Some(v) => {
            if v.len() < 3 {
                return RequestPath::default();
            }
            match (&v[1], &v[2]) {
                (Some(token), Some(raw)) => {
                    let http_method = Method::from_token(token.as_str());
                    if http_method == Method::Unparsed {
                        RequestPath::default()
                    } else {
                        RequestPath { http_method, path: normalize_path(raw.as_str()) }
                    }
                },
                _ => RequestPath::default(),
            }
        },
        None => RequestPath::default(),
    }
}

/// Reads method and path template from a request line. A line that is not
/// recognized gives the sentinel: method `Unparsed`, empty path.
pub fn deserialize_request_path(line: &str) -> (r: RequestPath)
    ensures
        r.http_method == spec_method_of(pattern_groups(REQUEST_PATTERN@, line@)),
        r.path@ == spec_path_of(pattern_groups(REQUEST_PATTERN@, line@)),
        r.http_method == Method::Unparsed ==> r.path@.len() == 0,
{
    let groups = regex_captures(REQUEST_PATTERN, line);
    request_path_of(&groups)
}

/// One record of the log, field by field. The duration is in whole
/// milliseconds.
#[derive(Debug)]
pub struct LogRecord {
    pub time_iso8601: String,
    pub host: String,
    pub remote_addr: Vec<u8>,
    pub status: u16,
    pub bytes_sent: u32,
    pub request_time_ms: u64,
    pub request: String,
}

/// Turns a record into a canonical request: the timestamp truncated to its
/// hour, method and path template read from the request line, the figures
/// as they are.
pub fn normalize_record(record: &LogRecord) -> (r: NormalizedRequest)
    ensures
        r.hour_timestamp@ == spec_strip_minutes(record.time_iso8601@),
        r.method == spec_method_of(pattern_groups(REQUEST_PATTERN@, record.request@)),
        r.normalized_path@ == spec_path_of(pattern_groups(REQUEST_PATTERN@, record.request@)),
        r.method == Method::Unparsed ==> r.normalized_path@.len() == 0,
        r.bytes_sent == record.bytes_sent,
        r.duration_ms == record.request_time_ms,
        r.status_code == record.status,
{
    let request = deserialize_request_path(record.request.as_str());
    NormalizedRequest {
        hour_timestamp: strip_minutes(record.time_iso8601.as_str()),
        method: request.http_method,
        normalized_path: request.path,
        bytes_sent: record.bytes_sent,
        duration_ms: record.request_time_ms,
        status_code: record.status,
    }
}

} // verus!
