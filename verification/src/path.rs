//! Path templates: segments that look like parameters become wildcards.

use vstd::prelude::*;

verus! {

/// Separates the segments of a path.
pub const RESOURCE_DELIMITER: char = '/';

/// Stands for a segment that is an unsigned integer.
pub const INT_PARAM: &'static str = "<INT>";

/// Stands for a segment that is a UUID.
pub const UUID_PARAM: &'static str = "<UUID>";

/// Stands for any other segment that holds a digit.
pub const CONTAINS_DIGIT_PARAM: &'static str = "<CONTAINS_DIGIT>";

/// The canonical 8-4-4-4-12 hexadecimal form of a UUID, in either case.
pub const UUID_PATTERN: &'static str =
    "(?i)^[0-9A-F]{8}\\-[0-9A-F]{4}\\-[0-9A-F]{4}\\-[0-9A-F]{4}\\-[0-9A-F]{12}$";

/// A line that holds at least one digit.
pub const CONTAINS_DIGIT_PATTERN: &'static str = "^.*[0-9]+.*$";

/// Whether every character of a non-empty text is an ASCII digit.
pub open spec fn is_digits(text: Seq<char>) -> bool {
    text.len() > 0 && forall|i: int| 0 <= i < text.len() ==> '0' <= #[trigger] text[i] <= '9'
}

/// The number that a text of ASCII digits writes in base ten.
pub open spec fn digits_value(text: Seq<char>) -> nat
    decreases text.len(),
{
    if text.len() == 0 {
        0
    } else {
        (digits_value(text.drop_last()) * 10 + (text.last() as nat - '0' as nat)) as nat
    }
}

/// Whether a text writes an unsigned 32-bit integer: an optional `+`, then
/// ASCII digits only, at least one, whose value fits.
pub open spec fn parses_as_u32(text: Seq<char>) -> bool {
    let digits = if text.len() > 0 && text[0] == '+' {
        text.drop_first()
    } else {
        text
    };
    is_digits(digits) && digits_value(digits) <= u32::MAX
}

/// What `regex::Regex::is_match` answers for a pattern and a text: `None`
/// where the pattern does not compile.
pub uninterp spec fn pattern_match(pattern: Seq<char>, text: Seq<char>) -> Option<bool>;

/// Calls `str::parse::<u32>` and reports whether it succeeded. That
/// parser takes an optional `+` sign followed by decimal digits only, and
/// fails on an empty text, on any other character and on a value that
/// does not fit.
#[verifier::external_body]
fn is_unsigned(text: &str) -> (b: bool)
    ensures
        b == parses_as_u32(text@),
{
    text.parse::<u32>().is_ok()
}

/// Compiles the pattern with `regex::Regex::new` and calls
/// `regex::Regex::is_match` on the text. Both depend on their arguments
/// alone; a pattern that does not compile gives `None`.
#[verifier::external_body]
fn regex_is_match(pattern: &str, text: &str) -> (r: Option<bool>)
    ensures
        r == pattern_match(pattern@, text@),
{
    match regex::Regex::new(pattern) {
        Ok(re) => Some(re.is_match(text)),
        Err(_) => None,
    }
}

/// What a path segment is taken for.
#[derive(Clone, Copy, Debug, PartialEq, Eq, Structural)]
pub enum SegmentKind {
    Int,
    Uuid,
    ContainsDigit,
    Plain,
}

/// The kind of a segment, given the answers to the three questions asked
/// of it, in order of priority: integer, then UUID, then digit-bearing.
pub open spec fn spec_classify(
    unsigned: bool,
    uuid: Option<bool>,
    digit: Option<bool>,
) -> SegmentKind {
    if unsigned {
        SegmentKind::Int
    } else if uuid == Some(true) {
        SegmentKind::Uuid
    } else if digit == Some(true) {
        SegmentKind::ContainsDigit
    } else {
        SegmentKind::Plain
    }
}

/// Decides the kind of a segment from the answers to the three questions.
pub fn classify(unsigned: bool, uuid: Option<bool>, digit: Option<bool>) -> (k: SegmentKind)
    ensures
        k == spec_classify(unsigned, uuid, digit),
{
    if unsigned {
        SegmentKind::Int
    } else if matches!(uuid, Some(true)) {
        SegmentKind::Uuid
    } else if matches!(digit, Some(true)) {
        SegmentKind::ContainsDigit
    } else {
        SegmentKind::Plain
    }
}

/// The kind of a segment. An empty segment is always plain.
pub open spec fn spec_kind(segment: Seq<char>) -> SegmentKind {
    if segment.len() == 0 {
        SegmentKind::Plain
    } else {
        spec_classify(
            parses_as_u32(segment),
            pattern_match(UUID_PATTERN@, segment),
            pattern_match(CONTAINS_DIGIT_PATTERN@, segment),
        )
    }
}

/// The text that replaces a segment of a given kind.
pub open spec fn spec_rewrite_as(segment: Seq<char>, kind: SegmentKind) -> Seq<char> {
    match kind {
        SegmentKind::Int => INT_PARAM@,
        SegmentKind::Uuid => UUID_PARAM@,
        SegmentKind::ContainsDigit => CONTAINS_DIGIT_PARAM@,
        SegmentKind::Plain => segment,
    }
}

/// The text that replaces a segment in a template.
pub open spec fn spec_rewrite(segment: Seq<char>) -> Seq<char> {
    spec_rewrite_as(segment, spec_kind(segment))
}

/// Decides what a segment is taken for.
pub fn segment_kind(segment: &str) -> (k: SegmentKind)
    ensures
        k == spec_kind(segment@),
{
    if segment.unicode_len() == 0 {
        SegmentKind::Plain
    } else if is_unsigned(segment) {
        SegmentKind::Int
    } else {
        let uuid = regex_is_match(UUID_PATTERN, segment);
        let digit = regex_is_match(CONTAINS_DIGIT_PATTERN, segment);
        classify(false, uuid, digit)
    }
}

/// The text that replaces a segment of a given kind.
pub fn rewrite_as(segment: &str, kind: SegmentKind) -> (r: String)
    ensures
        r@ == spec_rewrite_as(segment@, kind),
{
    match kind {
        SegmentKind::Int => String::from_str(INT_PARAM),
        SegmentKind::Uuid => String::from_str(UUID_PARAM),
        SegmentKind::ContainsDigit => String::from_str(CONTAINS_DIGIT_PARAM),
        SegmentKind::Plain => String::from_str(segment),
    }
}

/// The segments of a text: the pieces between separators. A text without
/// separator is one segment; the empty text is one empty segment.
pub open spec fn split_segments(s: Seq<char>) -> Seq<Seq<char>>
    decreases s.len(),
{
    if s.len() == 0 {
        seq![Seq::<char>::empty()]
    } else {
        let front = split_segments(s.drop_last());
        if s.last() == RESOURCE_DELIMITER {
            front.push(Seq::<char>::empty())
        } else {
            front.drop_last().push(front.last().push(s.last()))
        }
    }
}

/// Segments put together again, one separator between neighbours.
pub open spec fn join_segments(segments: Seq<Seq<char>>) -> Seq<char>
    decreases segments.len(),
{
    if segments.len() == 0 {
        Seq::<char>::empty()
    } else if segments.len() == 1 {
        segments[0]
    } else {
        join_segments(segments.drop_last()).push(RESOURCE_DELIMITER) + segments.last()
    }
}

/// The views of a vector of strings.
pub open spec fn texts(v: Seq<String>) -> Seq<Seq<char>> {
    Seq::new(v.len(), |i: int| v[i]@)
}

/// Segments without a trailing empty one.
pub open spec fn without_trailing_empty(segments: Seq<Seq<char>>) -> Seq<Seq<char>> {
    if segments.len() > 0 && segments.last().len() == 0 {
        segments.drop_last()
    } else {
        segments
    }
}

/// The template of a path: each segment rewritten, a trailing empty
/// segment dropped, the rest joined again.
pub open spec fn spec_normalize(path: Seq<char>) -> Seq<char> {
    join_segments(
        without_trailing_empty(
            split_segments(path).map_values(|seg: Seq<char>| spec_rewrite(seg)),
        ),
    )
}

/// Splits a text at every separator.
pub fn split_path(path: &str) -> (segments: Vec<String>)
    ensures
        texts(segments@) == split_segments(path@),
        segments@.len() >= 1,
{
    let n = path.unicode_len();
    let mut done: Vec<String> = Vec::new();
    let mut start: usize = 0;
    let mut i: usize = 0;
    proof {
        assert(path@.subrange(0, 0) =~= Seq::<char>::empty());
        assert(texts(done@).push(path@.subrange(0, 0)) =~= seq![Seq::<char>::empty()]);
    }
    while i < n
        invariant
            n == path@.len(),
            start <= i <= n,
            split_segments(path@.subrange(0, i as int)) == texts(done@).push(
                path@.subrange(start as int, i as int),
            ),
        decreases n - i,
    {
        let c = path.get_char(i);
        proof {
            let before = path@.subrange(0, i as int);
            let now = path@.subrange(0, i + 1);
            assert(now.drop_last() =~= before);
            assert(now.last() == c);
            let front = split_segments(before);
            assert(front.last() == path@.subrange(start as int, i as int));
            assert(front.drop_last() =~= texts(done@));
        }
        if c == RESOURCE_DELIMITER {
            let piece = String::from_str(path.substring_char(start, i));
            let ghost earlier = done@;
            done.push(piece);
            start = i + 1;
            proof {
                assert(texts(done@) =~= texts(earlier).push(piece@));
                assert(path@.subrange(start as int, i + 1) =~= Seq::<char>::empty());
            }
        } else {
            proof {
                assert(path@.subrange(start as int, i + 1) =~= path@.subrange(
                    start as int,
                    i as int,
                ).push(c));
            }
        }
        i = i + 1;
    }
    let piece = String::from_str(path.substring_char(start, n));
    let ghost earlier = done@;
    done.push(piece);
    proof {
        assert(path@.subrange(0, n as int) =~= path@);
        assert(texts(done@) =~= texts(earlier).push(piece@));
    }
    done
}

/// Joins segments with the separator.
pub fn join_path(segments: &Vec<String>) -> (path: String)
    ensures
        path@ == join_segments(texts(segments@)),
{
    let mut path = String::new();
    let mut i: usize = 0;
    while i < segments.len()
        invariant
            i <= segments@.len(),
            path@ == join_segments(texts(segments@).subrange(0, i as int)),
        decreases segments@.len() - i,
    {
        proof {
            let now = texts(segments@).subrange(0, i + 1);
            assert(now.drop_last() =~= texts(segments@).subrange(0, i as int));
            assert(now.last() == segments@[i as int]@);
            if i == 0 {
                assert(now[0] == segments@[0]@);
            }
            reveal_strlit("/");
            assert("/"@ =~= seq![RESOURCE_DELIMITER]);
        }
        if i > 0 {
            let ghost before = path@;
            path.append("/");
            proof {
                assert(path@ =~= before.push(RESOURCE_DELIMITER));
            }
        }
        path.append(segments[i].as_str());
        proof {
            if i == 0 {
                assert(path@ =~= segments@[0]@);
            }
        }
        i = i + 1;
    }
    proof {
        assert(texts(segments@).subrange(0, i as int) =~= texts(segments@));
    }
    path
}

/// Rewrites a path into its template.
pub fn normalize_path(path: &str) -> (template: String)
    ensures
        template@ == spec_normalize(path@),
{
    let segments = split_path(path);
    let mut rewritten: Vec<String> = Vec::new();
    let mut i: usize = 0;
    while i < segments.len()
        invariant
            i <= segments@.len(),
            rewritten@.len() == i,
            forall|j: int|
                0 <= j < i ==> (#[trigger] rewritten@[j])@ == spec_rewrite(segments@[j]@),
        decreases segments@.len() - i,
    {
        let kind = segment_kind(segments[i].as_str());
        let piece = rewrite_as(segments[i].as_str(), kind);
        rewritten.push(piece);
        i = i + 1;
    }
    proof {
        assert(texts(rewritten@) =~= split_segments(path@).map_values(
            |seg: Seq<char>| spec_rewrite(seg),
        )) by {
            assert forall|j: int| 0 <= j < rewritten@.len() implies texts(rewritten@)[j]
                == spec_rewrite(split_segments(path@)[j]) by {
                assert(texts(segments@)[j] == segments@[j]@);
            }
        }
    }
    let last = rewritten.len() - 1;
    if rewritten[last].as_str().unicode_len() == 0 {
        let ghost before = rewritten@;
        rewritten.pop();
        proof {
            assert(texts(before).last() == before[last as int]@);
            assert(texts(rewritten@) =~= texts(before).drop_last());
        }
    } else {
        proof {
            assert(texts(rewritten@).last() == rewritten@[last as int]@);
        }
    }
    join_path(&rewritten)
}

/// A timestamp with minutes and seconds set to zero: texts of fewer than
/// 14 characters stay as they are; of any other, the first ten characters,
/// a space, the characters at positions 11 to 13, and `00`.
pub open spec fn spec_strip_minutes(s: Seq<char>) -> Seq<char> {
    if s.len() < 14 {
        s
    } else {
        s.subrange(0, 10) + " "@ + s.subrange(11, 14) + "00"@
    }
}

/// Truncates an ISO 8601 timestamp to the top of its hour.
pub fn strip_minutes(s: &str) -> (hour: String)
    ensures
        hour@ == spec_strip_minutes(s@),
{
    if s.unicode_len() < 14 {
        String::from_str(s)
    } else {
        let mut hour = String::from_str(s.substring_char(0, 10));
        hour.append(" ");
        hour.append(s.substring_char(11, 14));
        hour.append("00");
        hour
    }
}

} // verus!
