//! Captured request traces.

use vstd::prelude::*;
use vstd::utf8::encode_utf8;

use crate::downloader::{requests_of, Access, Request};
use crate::range::{ByteRange, Interval};
use crate::text::{
    blank, characters, digits_end, find, find_from, is_blank, leading_digits,
    lemma_leading_digits, number_of, part_of, read_number, skip_space, text_of, trimmed_start,
};
use crate::timestamp::{parse_timestamp_millis, timestamp_of, TimestampError};

verus! {

/// A field of a trace line.
#[derive(Clone, Copy, Debug, PartialEq, Eq, Structural)]
pub enum TraceField {
    ObjectId,
    ObjectNumBytes,
    RequestedRangeStart,
    RequestedRangeEnd,
    Timestamp,
}

impl TraceField {
    /// The name of the field.
    pub open spec fn label(self) -> Seq<char> {
        match self {
            TraceField::ObjectId => "object_id"@,
            TraceField::ObjectNumBytes => "object_num_bytes"@,
            TraceField::RequestedRangeStart => "requested_range_start"@,
            TraceField::RequestedRangeEnd => "requested_range_end"@,
            TraceField::Timestamp => "timestamp"@,
        }
    }

    /// Returns the name of the field.
    pub fn name(self) -> (name: &'static str)
        ensures
            name@ == self.label(),
    {
        match self {
            TraceField::ObjectId => "object_id",
            TraceField::ObjectNumBytes => "object_num_bytes",
            TraceField::RequestedRangeStart => "requested_range_start",
            TraceField::RequestedRangeEnd => "requested_range_end",
            TraceField::Timestamp => "timestamp",
        }
    }
}

/// Why a field has no value.
#[derive(Clone, Copy, Debug, PartialEq, Eq, Structural)]
pub enum FieldError {
    /// The line does not hold the field.
    Missing,
    /// No colon follows the field.
    MissingColon,
    /// The value is not a string.
    NotAString,
    /// The string has no closing quote.
    NoClosingQuote,
    /// The value is not an unsigned integer.
    NotUnsigned,
    /// The number exceeds `u64::MAX`.
    TooLarge,
}

/// Why a line is no captured request.
#[derive(Clone, Debug, PartialEq, Eq)]
pub enum TraceError {
    /// A field has no value.
    Field(TraceField, FieldError),
    /// The requested range is empty or reversed.
    Range {
        start: u64,
        end: u64,
    },
    /// The text is no timestamp.
    Timestamp {
        text: String,
        error: TimestampError,
    },
}

/// Why a line is no captured request, with texts as sequences.
#[verifier::ext_equal]
pub enum TraceFault {
    Field(TraceField, FieldError),
    Range {
        start: u64,
        end: u64,
    },
    Timestamp {
        text: Seq<char>,
        error: TimestampError,
    },
}

impl View for TraceError {
    type V = TraceFault;

    open spec fn view(&self) -> TraceFault {
        match self {
            TraceError::Field(field, error) => TraceFault::Field(*field, *error),
            TraceError::Range { start, end } => TraceFault::Range { start: *start, end: *end },
            TraceError::Timestamp { text, error } => TraceFault::Timestamp {
                text: text@,
                error: *error,
            },
        }
    }
}

/// A field's name as it stands in a line.
pub open spec fn quoted(field: Seq<char>) -> Seq<char> {
    seq!['"'] + field + seq!['"']
}

/// The text of a line from the value of a field on.
pub open spec fn field_text(line: Seq<char>, field: Seq<char>) -> Result<Seq<char>, FieldError> {
    match find(line, quoted(field)) {
        None => Err(FieldError::Missing),
        Some(at) => {
            let after = line.skip(at + quoted(field).len());
            match find(after, seq![':']) {
                None => Err(FieldError::MissingColon),
                Some(colon) => Ok(trimmed_start(after.skip(colon + 1))),
            }
        },
    }
}

/// The string that a field of a line holds.
pub open spec fn json_string(line: Seq<char>, field: Seq<char>) -> Result<Seq<char>, FieldError> {
    match field_text(line, field) {
        Err(error) => Err(error),
        Ok(value) => if value.len() == 0 || value[0] != '"' {
            Err(FieldError::NotAString)
        } else {
            match find(value.skip(1), seq!['"']) {
                None => Err(FieldError::NoClosingQuote),
                Some(end) => Ok(value.skip(1).take(end)),
            }
        },
    }
}

/// The number that a field of a line holds.
pub open spec fn json_u64(line: Seq<char>, field: Seq<char>) -> Result<u64, FieldError> {
    match field_text(line, field) {
        Err(error) => Err(error),
        Ok(value) => {
            let digits = leading_digits(value);
            if digits.len() == 0 {
                Err(FieldError::NotUnsigned)
            } else if number_of(digits) > u64::MAX {
                Err(FieldError::TooLarge)
            } else {
                Ok(number_of(digits) as u64)
            }
        },
    }
}

/// The request that a line holds. Fields are read in a fixed order, and the
/// first that fails is the error.
#[verifier::opaque]
pub open spec fn trace_line(line: Seq<char>) -> Result<Request, TraceFault> {
    match json_string(line, TraceField::ObjectId.label()) {
        Err(error) => Err(TraceFault::Field(TraceField::ObjectId, error)),
        Ok(key) => match json_u64(line, TraceField::ObjectNumBytes.label()) {
            Err(error) => Err(TraceFault::Field(TraceField::ObjectNumBytes, error)),
            Ok(size) => match json_u64(line, TraceField::RequestedRangeStart.label()) {
                Err(error) => Err(TraceFault::Field(TraceField::RequestedRangeStart, error)),
                Ok(start) => match json_u64(line, TraceField::RequestedRangeEnd.label()) {
                    Err(error) => Err(TraceFault::Field(TraceField::RequestedRangeEnd, error)),
                    Ok(end) => if start >= end {
                        Err(TraceFault::Range { start, end })
                    } else {
                        match json_string(line, TraceField::Timestamp.label()) {
                            Err(error) => Err(TraceFault::Field(TraceField::Timestamp, error)),
                            Ok(text) => match timestamp_of(encode_utf8(text)) {
                                Err(error) => Err(TraceFault::Timestamp { text, error }),
                                Ok(time) => Ok(
                                    Request {
                                        key,
                                        size,
                                        range: Interval { start, end },
                                        time: time as u64,
                                    },
                                ),
                            },
                        }
                    },
                },
            },
        },
    }
}

/// Returns where the value of a field begins in a line.
fn field_value(line: &Vec<char>, field: &str) -> (result: Result<usize, FieldError>)
    ensures
        match result {
            Ok(start) => {
                &&& start <= line@.len()
                &&& field_text(line@, field@) == Ok::<Seq<char>, FieldError>(
                    line@.skip(start as int),
                )
            },
            Err(error) => field_text(line@, field@) == Err::<Seq<char>, FieldError>(error),
        },
{
    let mut needle: Vec<char> = Vec::new();
    needle.push('"');
    let mut name = characters(field);
    needle.append(&mut name);
    needle.push('"');
    assert(needle@ =~= quoted(field@));
    assert(line@.skip(0) =~= line@);
    let length = line.len();
    assert(length == line@.len());
    let at = match find_from(line, &needle, 0) {
        Some(at) => at,
        None => {
            return Err(FieldError::Missing);
        },
    };
    let after = at + needle.len();
    let mut colon_text: Vec<char> = Vec::new();
    colon_text.push(':');
    assert(colon_text@ =~= seq![':']);
    let colon = match find_from(line, &colon_text, after) {
        Some(colon) => colon,
        None => {
            return Err(FieldError::MissingColon);
        },
    };
    let start = skip_space(line, colon + 1);
    assert(line@.skip(after as int).skip(colon - after + 1) =~= line@.skip(colon + 1));
    Ok(start)
}

/// Returns the string that a field of a line holds.
pub fn find_json_string(line: &Vec<char>, field: &str) -> (result: Result<String, FieldError>)
    ensures
        match result {
            Ok(text) => json_string(line@, field@) == Ok::<Seq<char>, FieldError>(text@),
            Err(error) => json_string(line@, field@) == Err::<Seq<char>, FieldError>(error),
        },
{
    let start = match field_value(line, field) {
        Ok(start) => start,
        Err(error) => {
            return Err(error);
        },
    };
    let ghost value = line@.skip(start as int);
    if start == line.len() {
        return Err(FieldError::NotAString);
    }
    assert(value[0] == line@[start as int]);
    if line[start] != '"' {
        return Err(FieldError::NotAString);
    }
    let mut quote: Vec<char> = Vec::new();
    quote.push('"');
    assert(quote@ =~= seq!['"']);
    assert(line@.skip(start + 1) =~= value.skip(1));
    match find_from(line, &quote, start + 1) {
        Some(end) => {
            let text = text_of(line, start + 1, end);
            assert(text@ =~= value.skip(1).take(end - start - 1));
            Ok(text)
        },
        None => Err(FieldError::NoClosingQuote),
    }
}

/// Returns the number that a field of a line holds.
pub fn find_json_u64(line: &Vec<char>, field: &str) -> (result: Result<u64, FieldError>)
    ensures
        match result {
            Ok(number) => json_u64(line@, field@) == Ok::<u64, FieldError>(number),
            Err(error) => json_u64(line@, field@) == Err::<u64, FieldError>(error),
        },
{
    let start = match field_value(line, field) {
        Ok(start) => start,
        Err(error) => {
            return Err(error);
        },
    };
    let end = digits_end(line, start);
    if end == start {
        return Err(FieldError::NotUnsigned);
    }
    proof {
        lemma_leading_digits(line@.skip(start as int));
    }
    match read_number(line, start, end) {
        Some(number) => {
            if number > u64::MAX as u128 {
                Err(FieldError::TooLarge)
            } else {
                Ok(number as u64)
            }
        },
        None => Err(FieldError::TooLarge),
    }
}

/// Parses one captured request.
pub fn parse_trace_line(line: &str) -> (result: Result<Access, TraceError>)
    ensures
        match result {
            Ok(access) => trace_line(line@) == Ok::<Request, TraceFault>(access@),
            Err(error) => trace_line(line@) == Err::<Request, TraceFault>(error@),
        },
{
    let text = characters(line);
    parse_characters(&text)
}

/// Parses one captured request from the characters of its line.
fn parse_characters(line: &Vec<char>) -> (result: Result<Access, TraceError>)
    ensures
        match result {
            Ok(access) => trace_line(line@) == Ok::<Request, TraceFault>(access@),
            Err(error) => trace_line(line@) == Err::<Request, TraceFault>(error@),
        },
{
    proof {
        reveal(trace_line);
    }
    let object_key = match find_json_string(line, TraceField::ObjectId.name()) {
        Ok(object_key) => object_key,
        Err(error) => {
            return Err(TraceError::Field(TraceField::ObjectId, error));
        },
    };
    let object_size = match find_json_u64(line, TraceField::ObjectNumBytes.name()) {
        Ok(object_size) => object_size,
        Err(error) => {
            return Err(TraceError::Field(TraceField::ObjectNumBytes, error));
        },
    };
    let start = match find_json_u64(line, TraceField::RequestedRangeStart.name()) {
        Ok(start) => start,
        Err(error) => {
            return Err(TraceError::Field(TraceField::RequestedRangeStart, error));
        },
    };
    let end = match find_json_u64(line, TraceField::RequestedRangeEnd.name()) {
        Ok(end) => end,
        Err(error) => {
            return Err(TraceError::Field(TraceField::RequestedRangeEnd, error));
        },
    };
    let requested = match ByteRange::new(start, end) {
        Ok(requested) => requested,
        Err(_) => {
            return Err(TraceError::Range { start, end });
        },
    };
    let timestamp = match find_json_string(line, TraceField::Timestamp.name()) {
        Ok(timestamp) => timestamp,
        Err(error) => {
            return Err(TraceError::Field(TraceField::Timestamp, error));
        },
    };
    let timestamp_millis = match parse_timestamp_millis(timestamp.as_str()) {
        Ok(timestamp_millis) => timestamp_millis,
        Err(error) => {
            return Err(TraceError::Timestamp { text: timestamp, error });
        },
    };
    Ok(Access { object_key, object_size, requested, timestamp_millis })
}

/// The lines of a text: it is split at line feeds, a line that ends in one also
/// loses a carriage return before it, and nothing follows a final line feed.
pub open spec fn lines_of(text: Seq<char>) -> Seq<Seq<char>>
    decreases text.len(),
{
    if text.len() == 0 {
        Seq::empty()
    } else {
        match find(text, seq!['\n']) {
            None => seq![text],
            Some(end) => if 0 <= end < text.len() {
                seq![without_return(text.take(end))] + lines_of(text.skip(end + 1))
            } else {
                Seq::empty()
            },
        }
    }
}

/// A line without a carriage return at its end.
pub open spec fn without_return(line: Seq<char>) -> Seq<char> {
    if line.len() > 0 && line.last() == '\r' {
        line.drop_last()
    } else {
        line
    }
}

/// The requests that lines hold, blank lines left out, or the first line that
/// holds none. `before` lines precede them.
pub open spec fn requests_in(lines: Seq<Seq<char>>, before: int) -> Result<
    Seq<Request>,
    (int, TraceFault),
>
    decreases lines.len(),
{
    if lines.len() == 0 {
        Ok(Seq::empty())
    } else if blank(lines[0]) {
        requests_in(lines.drop_first(), before + 1)
    } else {
        match trace_line(lines[0]) {
            Err(error) => Err((before + 1, error)),
            Ok(request) => in_front(seq![request], requests_in(lines.drop_first(), before + 1)),
        }
    }
}

/// The result with requests put in front.
pub open spec fn in_front(
    requests: Seq<Request>,
    result: Result<Seq<Request>, (int, TraceFault)>,
) -> Result<Seq<Request>, (int, TraceFault)> {
    match result {
        Ok(rest) => Ok(requests + rest),
        Err(error) => Err(error),
    }
}

/// Where and why a trace could not be read.
#[derive(Clone, Debug, PartialEq, Eq)]
pub struct TraceFailure {
    /// The line, counted from 1.
    pub line: usize,
    pub error: TraceError,
}

/// Returns where the line at `position` ends, and where the next one begins.
fn cut_line(text: &Vec<char>, position: usize) -> (cut: (usize, usize))
    requires
        position < text@.len(),
    ensures
        position <= cut.0 <= text@.len(),
        position < cut.1 <= text@.len(),
        lines_of(text@.skip(position as int)) == seq![
            text@.subrange(position as int, cut.0 as int),
        ] + lines_of(text@.skip(cut.1 as int)),
{
    let ghost rest = text@.skip(position as int);
    let length = text.len();
    assert(length == text@.len());
    let mut feed: Vec<char> = Vec::new();
    feed.push('\n');
    assert(feed@ =~= seq!['\n']);
    match find_from(text, &feed, position) {
        Some(end) => {
            let stop = if end > position && text[end - 1] == '\r' { end - 1 } else { end };
            proof {
                let line = rest.take(end - position);
                assert(end > position ==> line.last() == text@[end - 1]);
                assert(text@.subrange(position as int, stop as int) =~= without_return(line));
                assert(rest.skip(end - position + 1) =~= text@.skip(end + 1));
            }
            (stop, end + 1)
        },
        None => {
            proof {
                assert(text@.subrange(position as int, text@.len() as int) =~= rest);
                assert(text@.skip(text@.len() as int) =~= Seq::<char>::empty());
                assert(lines_of(text@.skip(text@.len() as int)) =~= Seq::<Seq<char>>::empty());
                assert(seq![rest] + Seq::<Seq<char>>::empty() =~= seq![rest]);
            }
            (length, length)
        },
    }
}

/// Parses every captured request of a trace, one per line.
pub fn parse_trace(content: &str) -> (result: Result<Vec<Access>, TraceFailure>)
    ensures
        match result {
            Ok(accesses) => requests_in(lines_of(content@), 0) == Ok::<
                Seq<Request>,
                (int, TraceFault),
            >(requests_of(accesses@)),
            Err(failure) => requests_in(lines_of(content@), 0) == Err::<
                Seq<Request>,
                (int, TraceFault),
            >((failure.line as int, failure.error@)),
        },
{
    let text = characters(content);
    let mut accesses: Vec<Access> = Vec::new();
    let mut position: usize = 0;
    let mut count: usize = 0;
    let ghost whole = requests_in(lines_of(text@), 0);
    proof {
        assert(text@.skip(0) =~= text@);
        assert(requests_of(accesses@) =~= Seq::<Request>::empty());
        lemma_in_front_nothing(whole);
    }
    while position < text.len()
        invariant
            position <= text@.len(),
            count <= position,
            text@ == content@,
            whole == requests_in(lines_of(text@), 0),
            whole == in_front(
                requests_of(accesses@),
                requests_in(lines_of(text@.skip(position as int)), count as int),
            ),
        decreases text.len() - position,
    {
        let ghost rest = text@.skip(position as int);
        let ghost lines = lines_of(rest);
        let ghost before = requests_of(accesses@);
        let (end, next) = cut_line(&text, position);
        let line = part_of(&text, position, end);
        let ghost later = lines_of(text@.skip(next as int));
        proof {
            assert(lines[0] == line@);
            assert(lines.drop_first() =~= later);
        }
        if !is_blank(&line) {
            match parse_characters(&line) {
                Ok(access) => {
                    accesses.push(access);
                    proof {
                        assert(requests_of(accesses@) =~= before + seq![access@]);
                        lemma_in_front_twice(
                            before,
                            seq![access@],
                            requests_in(later, count + 1),
                        );
                    }
                },
                Err(error) => {
                    return Err(TraceFailure { line: count + 1, error });
                },
            }
        }
        position = next;
        count += 1;
    }
    proof {
        let end = text@.skip(position as int);
        assert(end =~= Seq::<char>::empty());
        assert(lines_of(end) =~= Seq::<Seq<char>>::empty());
        assert(requests_of(accesses@) + Seq::<Request>::empty() =~= requests_of(accesses@));
    }
    Ok(accesses)
}

proof fn lemma_in_front_nothing(result: Result<Seq<Request>, (int, TraceFault)>)
    ensures
        in_front(Seq::empty(), result) == result,
{
    if let Ok(rest) = result {
        assert(Seq::<Request>::empty() + rest =~= rest);
    }
}

proof fn lemma_in_front_twice(
    first: Seq<Request>,
    second: Seq<Request>,
    result: Result<Seq<Request>, (int, TraceFault)>,
)
    ensures
        in_front(first, in_front(second, result)) == in_front(first + second, result),
{
    if let Ok(rest) = result {
        assert(first + (second + rest) =~= (first + second) + rest);
    }
}

} // verus!
