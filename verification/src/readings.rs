//! What texts are read as.

use vstd::prelude::*;
use vstd::utf8::encode_utf8;

use crate::byte_count::{byte_count, byte_count_within, lowered, unit_bytes, ByteCountFault};
use crate::downloader::Request;
use crate::range::Interval;
use crate::text::{
    blank, find, first_at, is_digit, is_space, leading_digits, lemma_find, number_of, occurs_at,
    trimmed, trimmed_end, trimmed_start,
};
use crate::trace::{
    field_text, json_string, json_u64, lines_of, quoted, requests_in, trace_line, FieldError,
    TraceFault, TraceField,
};
use crate::timestamp::timestamp_of;

verus! {

/// White space is made of these characters and no other.
pub proof fn white_space_is_listed(character: char)
    ensures
        is_space(character) <==> {
            ||| character == '\t' || character == '\n' || character == '\r' || character == ' '
            ||| character == '\u{b}' || character == '\u{c}' || character == '\u{85}'
            ||| character == '\u{a0}' || character == '\u{1680}' || character == '\u{2000}'
            ||| character == '\u{2001}' || character == '\u{2002}' || character == '\u{2003}'
            ||| character == '\u{2004}' || character == '\u{2005}' || character == '\u{2006}'
            ||| character == '\u{2007}' || character == '\u{2008}' || character == '\u{2009}'
            ||| character == '\u{200a}' || character == '\u{2028}' || character == '\u{2029}'
            ||| character == '\u{202f}' || character == '\u{205f}' || character == '\u{3000}'
        },
{
}

/// A number is read digit by digit, each worth ten times what follows it.
pub proof fn numbers_are_read_digit_by_digit(digits: Seq<char>, digit: char)
    ensures
        number_of(Seq::empty()) == 0,
        digit == '0' ==> number_of(digits.push(digit)) == 10 * number_of(digits),
        digit == '1' ==> number_of(digits.push(digit)) == 10 * number_of(digits) + 1,
        digit == '2' ==> number_of(digits.push(digit)) == 10 * number_of(digits) + 2,
        digit == '3' ==> number_of(digits.push(digit)) == 10 * number_of(digits) + 3,
        digit == '4' ==> number_of(digits.push(digit)) == 10 * number_of(digits) + 4,
        digit == '5' ==> number_of(digits.push(digit)) == 10 * number_of(digits) + 5,
        digit == '6' ==> number_of(digits.push(digit)) == 10 * number_of(digits) + 6,
        digit == '7' ==> number_of(digits.push(digit)) == 10 * number_of(digits) + 7,
        digit == '8' ==> number_of(digits.push(digit)) == 10 * number_of(digits) + 8,
        digit == '9' ==> number_of(digits.push(digit)) == 10 * number_of(digits) + 9,
{
    assert(digits.push(digit).drop_last() =~= digits);
}

proof fn lemma_trimmed_start(space: Seq<char>, text: Seq<char>)
    requires
        blank(space),
        text.len() > 0 ==> !is_space(text[0]),
    ensures
        trimmed_start(space + text) == text,
    decreases space.len(),
{
    let all = space + text;
    if space.len() == 0 {
        assert(all =~= text);
    } else {
        assert(all[0] == space[0]);
        assert(is_space(space[0]));
        assert(all.drop_first() =~= space.drop_first() + text);
        assert forall|i: int| 0 <= i < space.drop_first().len() implies is_space(
            #[trigger] space.drop_first()[i],
        ) by {
            assert(is_space(space[i + 1]));
        }
        lemma_trimmed_start(space.drop_first(), text);
    }
}

proof fn lemma_trimmed_end(text: Seq<char>, space: Seq<char>)
    requires
        blank(space),
        text.len() > 0 ==> !is_space(text.last()),
    ensures
        trimmed_end(text + space) == text,
    decreases space.len(),
{
    let all = text + space;
    if space.len() == 0 {
        assert(all =~= text);
    } else {
        assert(all.last() == space.last());
        assert(is_space(space[space.len() - 1]));
        assert(all.drop_last() =~= text + space.drop_last());
        assert forall|i: int| 0 <= i < space.drop_last().len() implies is_space(
            #[trigger] space.drop_last()[i],
        ) by {
            assert(is_space(space[i]));
        }
        lemma_trimmed_end(text, space.drop_last());
    }
}

/// Trimming takes the white space around a text and nothing else.
pub proof fn trimming_takes_the_outer_white_space(
    before: Seq<char>,
    text: Seq<char>,
    after: Seq<char>,
)
    requires
        forall|i: int| 0 <= i < before.len() ==> is_space(#[trigger] before[i]),
        forall|i: int| 0 <= i < after.len() ==> is_space(#[trigger] after[i]),
        text.len() > 0 ==> !is_space(text[0]) && !is_space(text[text.len() - 1]),
    ensures
        trimmed(before + text + after) == text,
{
    if text.len() == 0 {
        let space = before + after;
        assert(before + text + after =~= space + text);
        assert(blank(space));
        lemma_trimmed_start(space, text);
        assert(trimmed_end(text) == text);
    } else {
        let rest = text + after;
        assert(before + text + after =~= before + rest);
        assert(rest[0] == text[0]);
        lemma_trimmed_start(before, rest);
        lemma_trimmed_end(text, after);
    }
}

proof fn lemma_leading(digits: Seq<char>, rest: Seq<char>)
    requires
        forall|i: int| 0 <= i < digits.len() ==> is_digit(#[trigger] digits[i]),
        rest.len() > 0 ==> !is_digit(rest[0]),
    ensures
        leading_digits(digits + rest) == digits,
    decreases digits.len(),
{
    let all = digits + rest;
    if digits.len() == 0 {
        assert(all =~= rest);
        assert(leading_digits(rest) =~= digits);
    } else {
        assert(all[0] == digits[0]);
        assert(is_digit(digits[0]));
        assert(all.drop_first() =~= digits.drop_first() + rest);
        assert forall|i: int| 0 <= i < digits.drop_first().len() implies is_digit(
            #[trigger] digits.drop_first()[i],
        ) by {
            assert(is_digit(digits[i + 1]));
        }
        lemma_leading(digits.drop_first(), rest);
        assert(seq![digits[0]] + digits.drop_first() =~= digits);
    }
}

/// A byte count is a number and a unit, in upper or lower case, with white space allowed
/// around and between them. `B` or nothing stands for one byte; `KiB`, `MiB` and `GiB`
/// for powers of 1024; `kB`, `MB` and `GB` for powers of 1000.
pub proof fn byte_counts_are_numbers_of_units(
    before: Seq<char>,
    digits: Seq<char>,
    between: Seq<char>,
    unit: Seq<char>,
    after: Seq<char>,
    scale: int,
)
    requires
        forall|i: int| 0 <= i < before.len() ==> is_space(#[trigger] before[i]),
        forall|i: int| 0 <= i < between.len() ==> is_space(#[trigger] between[i]),
        forall|i: int| 0 <= i < after.len() ==> is_space(#[trigger] after[i]),
        digits.len() > 0,
        forall|i: int| 0 <= i < digits.len() ==> 48 <= (#[trigger] digits[i]) as u32 <= 57,
        ({
            let last = unit.len() - 1;
            let bytes = unit[last] == 'b' || unit[last] == 'B';
            let kilo = unit[0] == 'k' || unit[0] == 'K';
            let mega = unit[0] == 'm' || unit[0] == 'M';
            let giga = unit[0] == 'g' || unit[0] == 'G';
            let binary = unit[1] == 'i' || unit[1] == 'I';
            ||| unit.len() == 0 && scale == 1
            ||| unit.len() == 1 && bytes && scale == 1
            ||| unit.len() == 3 && kilo && binary && bytes && scale == 1_024
            ||| unit.len() == 3 && mega && binary && bytes && scale == 1_024 * 1_024
            ||| unit.len() == 3 && giga && binary && bytes && scale == 1_024 * 1_024 * 1_024
            ||| unit.len() == 2 && kilo && bytes && scale == 1_000
            ||| unit.len() == 2 && mega && bytes && scale == 1_000_000
            ||| unit.len() == 2 && giga && bytes && scale == 1_000_000_000
        }),
    ensures
        byte_count(before + digits + between + unit + after) == if number_of(digits) > u128::MAX {
            Err::<int, ByteCountFault>(ByteCountFault::NumberTooLarge)
        } else if number_of(digits) * scale > u128::MAX {
            Err::<int, ByteCountFault>(ByteCountFault::Overflowed)
        } else {
            Ok::<int, ByteCountFault>(number_of(digits) * scale)
        },
{
    let text = before + digits + between + unit + after;
    assert forall|i: int| 0 <= i < digits.len() implies is_digit(#[trigger] digits[i]) by {}
    assert forall|i: int| 0 <= i < unit.len() implies !is_space(#[trigger] unit[i]) && !is_digit(
        unit[i],
    ) by {}
    let core = if unit.len() == 0 {
        digits
    } else {
        digits + between + unit
    };
    let tail = if unit.len() == 0 {
        between + after
    } else {
        after
    };
    assert(before + core + tail =~= text);
    assert(is_digit(digits[0]));
    assert(is_digit(digits[digits.len() - 1]));
    assert(core[0] == digits[0]);
    assert(core[core.len() - 1] == if unit.len() == 0 {
        digits[digits.len() - 1]
    } else {
        unit[unit.len() - 1]
    });
    trimming_takes_the_outer_white_space(before, core, tail);
    let rest = if unit.len() == 0 {
        Seq::<char>::empty()
    } else {
        between + unit
    };
    assert(core =~= digits + rest);
    if rest.len() > 0 {
        if between.len() > 0 {
            assert(rest[0] == between[0]);
            assert(is_space(between[0]));
        } else {
            assert(rest[0] == unit[0]);
        }
    }
    lemma_leading(digits, rest);
    assert(core.skip(digits.len() as int) =~= rest);
    if unit.len() == 0 {
        assert(trimmed(rest) == rest);
        assert(rest == unit);
    } else {
        assert(rest =~= between + unit + Seq::<char>::empty());
        trimming_takes_the_outer_white_space(between, unit, Seq::empty());
    }
    let suffix = lowered(unit);
    assert(trimmed(rest) == unit);
    reveal_strlit("");
    reveal_strlit("b");
    reveal_strlit("kib");
    reveal_strlit("mib");
    reveal_strlit("gib");
    reveal_strlit("kb");
    reveal_strlit("mb");
    reveal_strlit("gb");
    assert(suffix.len() == unit.len());
    if unit.len() == 0 {
        assert(suffix =~= ""@);
    } else if unit.len() == 1 {
        assert(suffix =~= "b"@);
        assert(""@.len() == 0);
    } else if scale == 1_024 {
        assert(suffix =~= "kib"@);
    } else if scale == 1_024 * 1_024 {
        assert(suffix =~= "mib"@);
        assert("kib"@[0] == 'k');
        assert("mib"@[0] == 'm');
    } else if scale == 1_024 * 1_024 * 1_024 {
        assert(suffix =~= "gib"@);
        assert("kib"@[0] == 'k');
        assert("mib"@[0] == 'm');
        assert("gib"@[0] == 'g');
    } else if scale == 1_000 {
        assert(suffix =~= "kb"@);
    } else if scale == 1_000_000 {
        assert(suffix =~= "mb"@);
        assert("kb"@[0] == 'k');
        assert("mb"@[0] == 'm');
    } else {
        assert(suffix =~= "gb"@);
        assert("kb"@[0] == 'k');
        assert("mb"@[0] == 'm');
        assert("gb"@[0] == 'g');
    }
}

/// The first occurrence of one character.
proof fn lemma_find_character(front: Seq<char>, character: char, rest: Seq<char>)
    requires
        forall|i: int| 0 <= i < front.len() ==> #[trigger] front[i] != character,
    ensures
        find(front + seq![character] + rest, seq![character]) == Some(front.len() as int),
{
    let text = front + seq![character] + rest;
    let at = front.len() as int;
    assert(text.subrange(at, at + 1) =~= seq![character]);
    assert(occurs_at(text, seq![character], at));
    assert forall|earlier: int| 0 <= earlier < at implies !#[trigger] occurs_at(
        text,
        seq![character],
        earlier,
    ) by {
        if occurs_at(text, seq![character], earlier) {
            assert(text.subrange(earlier, earlier + 1)[0] == front[earlier]);
        }
    }
    assert(first_at(text, seq![character], at));
    lemma_find(text, seq![character], at);
}

/// A text is cut into lines at its line feeds, and a carriage return before a line feed
/// is no part of the line. A last line needs no line feed.
pub proof fn lines_end_at_line_feeds(line: Seq<char>, rest: Seq<char>)
    requires
        forall|i: int| 0 <= i < line.len() ==> #[trigger] line[i] != '\n',
    ensures
        lines_of(Seq::empty()) == Seq::<Seq<char>>::empty(),
        line.len() > 0 ==> lines_of(line) == seq![line],
        line.len() == 0 || line[line.len() - 1] != '\r' ==> lines_of(line + seq!['\n'] + rest)
            == seq![line] + lines_of(rest),
        lines_of(line + seq!['\r', '\n'] + rest) == seq![line] + lines_of(rest),
{
    let text = line + seq!['\n'] + rest;
    lemma_find_character(line, '\n', rest);
    assert(text.take(line.len() as int) =~= line);
    assert(text.skip(line.len() as int + 1) =~= rest);
    let returned = line.push('\r');
    let longer = line + seq!['\r', '\n'] + rest;
    assert forall|i: int| 0 <= i < returned.len() implies #[trigger] returned[i] != '\n' by {}
    lemma_find_character(returned, '\n', rest);
    assert(longer =~= returned + seq!['\n'] + rest);
    assert(longer.take(returned.len() as int) =~= returned);
    assert(longer.skip(returned.len() as int + 1) =~= rest);
    assert(returned.drop_last() =~= line);
    assert(returned.last() == '\r');
    assert forall|position: int| !#[trigger] occurs_at(line, seq!['\n'], position) by {
        if occurs_at(line, seq!['\n'], position) {
            assert(line.subrange(position, position + 1)[0] == line[position]);
        }
    }
    crate::text::lemma_find_none(line, seq!['\n']);
}

/// A trace in which every line holds a request is read as those requests, in order.
pub proof fn traces_are_read_line_by_line(
    lines: Seq<Seq<char>>,
    requests: Seq<Request>,
    before: int,
)
    requires
        lines.len() == requests.len(),
        forall|i: int|
            0 <= i < lines.len() ==> !blank(#[trigger] lines[i]) && trace_line(lines[i]) == Ok::<
                Request,
                TraceFault,
            >(requests[i]),
    ensures
        requests_in(lines, before) == Ok::<Seq<Request>, (int, TraceFault)>(requests),
    decreases lines.len(),
{
    if lines.len() > 0 {
        let later = lines.drop_first();
        let others = requests.drop_first();
        assert forall|i: int| 0 <= i < later.len() implies !blank(#[trigger] later[i])
            && trace_line(later[i]) == Ok::<Request, TraceFault>(others[i]) by {
            assert(later[i] == lines[i + 1]);
        }
        traces_are_read_line_by_line(later, others, before + 1);
        assert(!blank(lines[0]));
        assert(seq![requests[0]] + others =~= requests);
    } else {
        assert(requests =~= Seq::empty());
    }
}

/// Blank lines hold no request: with or without one, a trace has the same requests.
pub proof fn blank_lines_hold_no_request(
    lines: Seq<Seq<char>>,
    at: int,
    line: Seq<char>,
    before: int,
)
    requires
        0 <= at <= lines.len(),
        forall|i: int| 0 <= i < line.len() ==> is_space(#[trigger] line[i]),
    ensures
        requests_in(lines, before) is Ok <==> requests_in(lines.insert(at, line), before) is Ok,
        requests_in(lines, before) is Ok ==> requests_in(lines.insert(at, line), before)
            == requests_in(lines, before),
    decreases at,
{
    let longer = lines.insert(at, line);
    if at == 0 {
        assert(longer[0] == line);
        assert(longer.drop_first() =~= lines);
        lemma_numbering(lines, before, before + 1);
    } else {
        assert(longer[0] == lines[0]);
        assert(longer.drop_first() =~= lines.drop_first().insert(at - 1, line));
        blank_lines_hold_no_request(lines.drop_first(), at - 1, line, before + 1);
    }
}

proof fn lemma_numbering(lines: Seq<Seq<char>>, one: int, other: int)
    ensures
        requests_in(lines, one) is Ok <==> requests_in(lines, other) is Ok,
        requests_in(lines, one) is Ok ==> requests_in(lines, one) == requests_in(lines, other),
    decreases lines.len(),
{
    if lines.len() > 0 {
        lemma_numbering(lines.drop_first(), one + 1, other + 1);
    }
}

/// A trace fails at its first line that is neither blank nor a request, which is counted
/// from 1, blank lines included.
pub proof fn traces_fail_at_the_first_bad_line(
    lines: Seq<Seq<char>>,
    at: int,
    fault: TraceFault,
    before: int,
)
    requires
        0 <= at < lines.len(),
        forall|i: int|
            0 <= i < at ==> blank(#[trigger] lines[i]) || trace_line(lines[i]) is Ok,
        !blank(lines[at]),
        trace_line(lines[at]) == Err::<Request, TraceFault>(fault),
    ensures
        requests_in(lines, before) == Err::<Seq<Request>, (int, TraceFault)>(
            (before + at + 1, fault),
        ),
    decreases lines.len(),
{
    if at > 0 {
        let later = lines.drop_first();
        assert forall|i: int| 0 <= i < at - 1 implies blank(#[trigger] later[i]) || trace_line(
            later[i],
        ) is Ok by {
            assert(later[i] == lines[i + 1]);
        }
        assert(later[at - 1] == lines[at]);
        traces_fail_at_the_first_bad_line(later, at - 1, fault, before + 1);
        assert(blank(lines[0]) || trace_line(lines[0]) is Ok);
    }
}

/// The value of a field stands behind the first colon that follows its quoted name where
/// that name first occurs, without the white space before it. A string value ends at the
/// next quote, and a number with its last digit.
pub proof fn fields_are_read_behind_their_names(
    front: Seq<char>,
    name: Seq<char>,
    between: Seq<char>,
    space: Seq<char>,
    value: Seq<char>,
    rest: Seq<char>,
)
    requires
        forall|position: int|
            0 <= position < front.len() ==> !#[trigger] occurs_at(
                front + seq!['"'] + name + seq!['"'] + between + seq![':'] + space + value + rest,
                seq!['"'] + name + seq!['"'],
                position,
            ),
        forall|i: int| 0 <= i < between.len() ==> #[trigger] between[i] != ':',
        forall|i: int| 0 <= i < space.len() ==> is_space(#[trigger] space[i]),
        value.len() > 0,
        !is_space(value[0]),
    ensures
        ({
            let line = front + seq!['"'] + name + seq!['"'] + between + seq![':'] + space + value
                + rest;
            &&& field_text(line, name) == Ok::<Seq<char>, FieldError>(value + rest)
            &&& {
                &&& value.len() >= 2
                &&& value[0] == '"'
                &&& value[value.len() - 1] == '"'
                &&& forall|i: int| 0 < i < value.len() - 1 ==> #[trigger] value[i] != '"'
            } ==> json_string(line, name) == Ok::<Seq<char>, FieldError>(
                value.subrange(1, value.len() - 1),
            )
            &&& {
                &&& forall|i: int| 0 <= i < value.len() ==> 48 <= (#[trigger] value[i]) as u32 <= 57
                &&& rest.len() == 0 || (rest[0] as u32) < 48 || rest[0] as u32 > 57
                &&& number_of(value) <= u64::MAX
            } ==> json_u64(line, name) == Ok::<u64, FieldError>(number_of(value) as u64)
            &&& value[0] != '"' ==> json_string(line, name) == Err::<Seq<char>, FieldError>(
                FieldError::NotAString,
            )
            &&& (value[0] as u32) < 48 || value[0] as u32 > 57 ==> json_u64(line, name) == Err::<
                u64,
                FieldError,
            >(FieldError::NotUnsigned)
        }),
{
    let line = front + seq!['"'] + name + seq!['"'] + between + seq![':'] + space + value + rest;
    let needle = quoted(name);
    let at = front.len() as int;
    assert(needle =~= seq!['"'] + name + seq!['"']);
    assert(line.subrange(at, at + needle.len()) =~= needle);
    assert(occurs_at(line, needle, at));
    assert(first_at(line, needle, at));
    lemma_find(line, needle, at);
    let after = line.skip(at + needle.len());
    let tail = space + value + rest;
    assert(after =~= between + seq![':'] + tail);
    lemma_find_character(between, ':', tail);
    assert(after.skip(between.len() as int + 1) =~= tail);
    let text = value + rest;
    assert(tail =~= space + text);
    assert(text[0] == value[0]);
    lemma_trimmed_start(space, text);
    assert(field_text(line, name) == Ok::<Seq<char>, FieldError>(text));
    if value.len() >= 2 && value[0] == '"' && value[value.len() - 1] == '"' && (forall|i: int|
        0 < i < value.len() - 1 ==> #[trigger] value[i] != '"') {
        let inner = value.subrange(1, value.len() - 1);
        assert(text.skip(1) =~= inner + seq!['"'] + rest);
        lemma_find_character(inner, '"', rest);
        assert(text.skip(1).take(inner.len() as int) =~= inner);
    }
    if (forall|i: int| 0 <= i < value.len() ==> 48 <= (#[trigger] value[i]) as u32 <= 57) && (rest.len()
        == 0 || (rest[0] as u32) < 48 || rest[0] as u32 > 57) {
        assert forall|i: int| 0 <= i < value.len() implies is_digit(#[trigger] value[i]) by {}
        lemma_leading(value, rest);
    }
}

/// A request is read from the five fields of its line.
pub proof fn requests_are_read_field_by_field(line: Seq<char>)
    requires
        trace_line(line) is Ok,
    ensures
        json_string(line, "object_id"@) == Ok::<Seq<char>, FieldError>(trace_line(line)->Ok_0.key),
        json_u64(line, "object_num_bytes"@) == Ok::<u64, FieldError>(trace_line(line)->Ok_0.size),
        json_u64(line, "requested_range_start"@) == Ok::<u64, FieldError>(
            trace_line(line)->Ok_0.range.start,
        ),
        json_u64(line, "requested_range_end"@) == Ok::<u64, FieldError>(
            trace_line(line)->Ok_0.range.end,
        ),
        json_string(line, "timestamp"@) is Ok,
        trace_line(line)->Ok_0.range.start < trace_line(line)->Ok_0.range.end,
{
    reveal(trace_line);
}

/// A line that holds no request is refused for the first of its fields that fails: the
/// object's name, its size, the start and the end of the range, an empty or reversed range,
/// and then the time.
pub proof fn lines_are_refused_for_their_first_fault(line: Seq<char>)
    ensures
        ({
            let name = json_string(line, "object_id"@);
            let size = json_u64(line, "object_num_bytes"@);
            let start = json_u64(line, "requested_range_start"@);
            let end = json_u64(line, "requested_range_end"@);
            let time = json_string(line, "timestamp"@);
            &&& name is Err ==> trace_line(line) == Err::<Request, TraceFault>(
                TraceFault::Field(TraceField::ObjectId, name->Err_0),
            )
            &&& name is Ok && size is Err ==> trace_line(line) == Err::<Request, TraceFault>(
                TraceFault::Field(TraceField::ObjectNumBytes, size->Err_0),
            )
            &&& name is Ok && size is Ok && start is Err ==> trace_line(line) == Err::<
                Request,
                TraceFault,
            >(TraceFault::Field(TraceField::RequestedRangeStart, start->Err_0))
            &&& name is Ok && size is Ok && start is Ok && end is Err ==> trace_line(line) == Err::<
                Request,
                TraceFault,
            >(TraceFault::Field(TraceField::RequestedRangeEnd, end->Err_0))
            &&& name is Ok && size is Ok && start is Ok && end is Ok && start->Ok_0 >= end->Ok_0
                ==> trace_line(line) == Err::<Request, TraceFault>(
                TraceFault::Range { start: start->Ok_0, end: end->Ok_0 },
            )
            &&& name is Ok && size is Ok && start is Ok && end is Ok && start->Ok_0 < end->Ok_0
                && time is Err ==> trace_line(line) == Err::<Request, TraceFault>(
                TraceFault::Field(TraceField::Timestamp, time->Err_0),
            )
            &&& name is Ok && size is Ok && start is Ok && end is Ok && start->Ok_0 < end->Ok_0
                && time is Ok && timestamp_of(encode_utf8(time->Ok_0)) is Err ==> trace_line(line)
                == Err::<Request, TraceFault>(
                TraceFault::Timestamp {
                    text: time->Ok_0,
                    error: timestamp_of(encode_utf8(time->Ok_0))->Err_0,
                },
            )
            &&& name is Ok && size is Ok && start is Ok && end is Ok && start->Ok_0 < end->Ok_0
                && time is Ok && timestamp_of(encode_utf8(time->Ok_0)) is Ok ==> trace_line(line)
                == Ok::<Request, TraceFault>(
                Request {
                    key: name->Ok_0,
                    size: size->Ok_0,
                    range: Interval { start: start->Ok_0, end: end->Ok_0 },
                    time: timestamp_of(encode_utf8(time->Ok_0))->Ok_0 as u64,
                },
            )
        }),
{
    reveal(trace_line);
}

/// A byte count is taken up to its limit and refused beyond it, and a text that is no byte
/// count is refused as such.
pub proof fn byte_counts_are_taken_up_to_their_limit(text: Seq<char>, limit: int)
    ensures
        byte_count(text) is Ok && byte_count(text)->Ok_0 <= limit ==> byte_count_within(text, limit)
            == byte_count(text),
        byte_count(text) is Ok && byte_count(text)->Ok_0 > limit ==> byte_count_within(text, limit)
            == Err::<int, ByteCountFault>(ByteCountFault::DoesNotFit),
        byte_count(text) is Err ==> byte_count_within(text, limit) == byte_count(text),
{
}

/// A text without a digit in front, white space aside, is no byte count, and one with an
/// unknown unit is refused with that unit in lower case.
pub proof fn other_texts_are_no_byte_counts(
    before: Seq<char>,
    digits: Seq<char>,
    between: Seq<char>,
    unit: Seq<char>,
)
    requires
        forall|i: int| 0 <= i < before.len() ==> is_space(#[trigger] before[i]),
        forall|i: int| 0 <= i < between.len() ==> is_space(#[trigger] between[i]),
        forall|i: int| 0 <= i < digits.len() ==> 48 <= (#[trigger] digits[i]) as u32 <= 57,
        unit.len() > 0,
        !is_space(unit[0]) && !is_space(unit[unit.len() - 1]),
        (unit[0] as u32) < 48 || unit[0] as u32 > 57,
        unit_bytes(lowered(unit)) is None,
    ensures
        byte_count(before + unit) == Err::<int, ByteCountFault>(ByteCountFault::NotANumber),
        digits.len() > 0 && number_of(digits) <= u128::MAX ==> byte_count(
            before + digits + between + unit,
        ) == Err::<int, ByteCountFault>(ByteCountFault::UnsupportedSuffix(lowered(unit))),
{
    let none = Seq::<char>::empty();
    assert(before + unit =~= before + unit + none);
    trimming_takes_the_outer_white_space(before, unit, none);
    assert(none + unit =~= unit);
    lemma_leading(none, unit);
    if digits.len() > 0 {
        let core = digits + between + unit;
        let rest = between + unit;
        assert forall|i: int| 0 <= i < digits.len() implies is_digit(#[trigger] digits[i]) by {}
        assert(is_digit(digits[0]));
        assert(core[0] == digits[0]);
        assert(core[core.len() - 1] == unit[unit.len() - 1]);
        assert(before + digits + between + unit =~= before + core + none);
        trimming_takes_the_outer_white_space(before, core, none);
        assert(core =~= digits + rest);
        if between.len() > 0 {
            assert(rest[0] == between[0]);
            assert(is_space(between[0]));
        } else {
            assert(rest[0] == unit[0]);
        }
        lemma_leading(digits, rest);
        assert(core.skip(digits.len() as int) =~= rest);
        assert(rest =~= between + unit + none);
        trimming_takes_the_outer_white_space(between, unit, none);
    }
}

} // verus!
