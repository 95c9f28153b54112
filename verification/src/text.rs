//! Reading and writing small pieces of text.

use vstd::prelude::*;

verus! {

/// Whether a character has Unicode's `White_Space` property.
pub open spec fn is_space(character: char) -> bool {
    let point = character as u32;
    ||| 0x9 <= point <= 0xd
    ||| point == 0x20
    ||| point == 0x85
    ||| point == 0xa0
    ||| point == 0x1680
    ||| 0x2000 <= point <= 0x200a
    ||| 0x2028 <= point <= 0x2029
    ||| point == 0x202f
    ||| point == 0x205f
    ||| point == 0x3000
}

/// Returns whether a character has Unicode's `White_Space` property.
fn space(character: char) -> (result: bool)
    ensures
        result == is_space(character),
{
    let point = character as u32;
    (0x9 <= point && point <= 0xd) || point == 0x20 || point == 0x85 || point == 0xa0 || point
        == 0x1680 || (0x2000 <= point && point <= 0x200a) || (0x2028 <= point && point <= 0x2029)
        || point == 0x202f || point == 0x205f || point == 0x3000
}

/// `String::push` appends one character.
#[verifier::external_body]
pub(crate) fn push(text: &mut String, character: char)
    ensures
        final(text)@ == old(text)@.push(character),
{
    text.push(character);
}

/// Whether a character is an ASCII decimal digit.
pub open spec fn is_digit(character: char) -> bool {
    '0' as u32 <= character as u32 <= '9' as u32
}

/// The value of a decimal digit.
pub open spec fn digit_value(character: char) -> int {
    character as u32 - '0' as u32
}

/// The number that a sequence of decimal digits stands for.
pub open spec fn number_of(digits: Seq<char>) -> int
    decreases digits.len(),
{
    if digits.len() == 0 {
        0
    } else {
        10 * number_of(digits.drop_last()) + digit_value(digits.last())
    }
}

/// The leading decimal digits of `text`.
pub open spec fn leading_digits(text: Seq<char>) -> Seq<char>
    decreases text.len(),
{
    if text.len() > 0 && is_digit(text[0]) {
        seq![text[0]] + leading_digits(text.drop_first())
    } else {
        Seq::empty()
    }
}

/// `text` without its leading white space.
pub open spec fn trimmed_start(text: Seq<char>) -> Seq<char>
    decreases text.len(),
{
    if text.len() > 0 && is_space(text[0]) {
        trimmed_start(text.drop_first())
    } else {
        text
    }
}

/// `text` without its trailing white space.
pub open spec fn trimmed_end(text: Seq<char>) -> Seq<char>
    decreases text.len(),
{
    if text.len() > 0 && is_space(text.last()) {
        trimmed_end(text.drop_last())
    } else {
        text
    }
}

/// `text` without white space at either end.
pub open spec fn trimmed(text: Seq<char>) -> Seq<char> {
    trimmed_end(trimmed_start(text))
}

/// Whether `needle` occurs in `text` at `position`.
pub open spec fn occurs_at(text: Seq<char>, needle: Seq<char>, position: int) -> bool {
    &&& 0 <= position
    &&& position + needle.len() <= text.len()
    &&& text.subrange(position, position + needle.len()) == needle
}

/// Whether `position` is the first at which `needle` occurs in `text`.
pub open spec fn first_at(text: Seq<char>, needle: Seq<char>, position: int) -> bool {
    &&& occurs_at(text, needle, position)
    &&& forall|earlier: int| 0 <= earlier < position ==> !#[trigger] occurs_at(text, needle, earlier)
}

/// The first position at which `needle` occurs in `text`, if it does.
pub open spec fn find(text: Seq<char>, needle: Seq<char>) -> Option<int> {
    if exists|position: int| #[trigger] first_at(text, needle, position) {
        Some(choose|position: int| #[trigger] first_at(text, needle, position))
    } else {
        None
    }
}

/// A first occurrence is the one that [`find`] yields.
pub proof fn lemma_find(text: Seq<char>, needle: Seq<char>, position: int)
    requires
        first_at(text, needle, position),
    ensures
        find(text, needle) == Some(position),
{
    let chosen = choose|chosen: int| #[trigger] first_at(text, needle, chosen);
    assert(first_at(text, needle, chosen));
    assert(occurs_at(text, needle, chosen));
    assert(occurs_at(text, needle, position));
}

/// Without any occurrence [`find`] yields nothing.
pub proof fn lemma_find_none(text: Seq<char>, needle: Seq<char>)
    requires
        forall|position: int| !#[trigger] occurs_at(text, needle, position),
    ensures
        find(text, needle) is None,
{
    if exists|position: int| #[trigger] first_at(text, needle, position) {
        let position = choose|position: int| #[trigger] first_at(text, needle, position);
        assert(occurs_at(text, needle, position));
    }
}

/// Lists the characters of a text.
pub fn characters(text: &str) -> (characters: Vec<char>)
    ensures
        characters@ == text@,
{
    let mut characters: Vec<char> = Vec::new();
    for character in iter: text.chars()
        invariant
            characters@ == iter.seq().take(iter.index() as int),
            iter.seq() == text@,
    {
        characters.push(character);
    }
    assert(text@.take(text@.len() as int) =~= text@);
    characters
}

/// Builds a text from the characters from `start` up to `end`.
pub fn text_of(characters: &Vec<char>, start: usize, end: usize) -> (text: String)
    requires
        start <= end <= characters@.len(),
    ensures
        text@ == characters@.subrange(start as int, end as int),
{
    let mut text = String::new();
    let mut index = start;
    assert(text@ =~= characters@.subrange(start as int, start as int));
    while index < end
        invariant
            start <= index <= end <= characters@.len(),
            text@ == characters@.subrange(start as int, index as int),
        decreases end - index,
    {
        push(&mut text, characters[index]);
        assert(characters@.subrange(start as int, index + 1) =~= characters@.subrange(
            start as int,
            index as int,
        ).push(characters@[index as int]));
        index += 1;
    }
    text
}

/// Returns whether two texts are equal.
pub fn same_text(left: &str, right: &str) -> (same: bool)
    ensures
        same == (left@ == right@),
{
    let left_characters = characters(left);
    let right_characters = characters(right);
    same_characters(&left_characters, &right_characters)
}

/// Returns whether two sequences of characters are equal.
pub fn same_characters(left: &Vec<char>, right: &Vec<char>) -> (same: bool)
    ensures
        same == (left@ == right@),
{
    if left.len() != right.len() {
        return false;
    }
    let mut index: usize = 0;
    while index < left.len()
        invariant
            index <= left@.len(),
            left@.len() == right@.len(),
            forall|i: int| 0 <= i < index ==> left@[i] == right@[i],
        decreases left.len() - index,
    {
        if left[index] != right[index] {
            return false;
        }
        index += 1;
    }
    assert(left@ =~= right@);
    true
}

/// Returns the first position from `start` on at which `needle` occurs.
pub fn find_from(text: &Vec<char>, needle: &Vec<char>, start: usize) -> (position: Option<usize>)
    requires
        start <= text@.len(),
    ensures
        match position {
            Some(position) => {
                &&& start <= position <= text@.len() - needle@.len()
                &&& find(text@.skip(start as int), needle@) == Some(position - start)
            },
            None => find(text@.skip(start as int), needle@) is None,
        },
{
    let ghost rest = text@.skip(start as int);
    let mut position = start;
    loop
        invariant
            start <= position <= text@.len(),
            rest == text@.skip(start as int),
            forall|earlier: int|
                0 <= earlier < position - start ==> !#[trigger] occurs_at(rest, needle@, earlier),
        decreases text.len() - position,
    {
        if needle.len() > text.len() - position {
            proof {
                assert forall|p: int| !#[trigger] occurs_at(rest, needle@, p) by {}
                lemma_find_none(rest, needle@);
            }
            return None;
        }
        if matches_at(text, needle, position) {
            proof {
                let at = position - start;
                assert(rest.subrange(at, at + needle@.len()) =~= text@.subrange(
                    position as int,
                    position + needle@.len(),
                ));
                assert(first_at(rest, needle@, at));
                lemma_find(rest, needle@, at);
            }
            return Some(position);
        }
        proof {
            let at = position - start;
            assert(rest.subrange(at, at + needle@.len()) =~= text@.subrange(
                position as int,
                position + needle@.len(),
            ));
        }
        if position == text.len() {
            proof {
                assert forall|p: int| !#[trigger] occurs_at(rest, needle@, p) by {}
                lemma_find_none(rest, needle@);
            }
            return None;
        }
        position += 1;
    }
}

/// Returns whether `needle` occurs at `position`.
fn matches_at(text: &Vec<char>, needle: &Vec<char>, position: usize) -> (matches: bool)
    requires
        position + needle@.len() <= text@.len(),
    ensures
        matches == occurs_at(text@, needle@, position as int),
{
    let ghost window = text@.subrange(position as int, position + needle@.len());
    let length = text.len();
    let mut matched: usize = 0;
    while matched < needle.len()
        invariant
            matched <= needle@.len(),
            length == text@.len(),
            position + needle@.len() <= length,
            window == text@.subrange(position as int, position + needle@.len()),
            forall|i: int| 0 <= i < matched ==> window[i] == needle@[i],
        decreases needle.len() - matched,
    {
        if text[position + matched] != needle[matched] {
            assert(window[matched as int] != needle@[matched as int]);
            return false;
        }
        matched += 1;
    }
    assert(window =~= needle@);
    true
}

/// Returns whether a character is an ASCII decimal digit.
fn digit(character: char) -> (result: bool)
    ensures
        result == is_digit(character),
{
    let code = character as u32;
    '0' as u32 <= code && code <= '9' as u32
}

/// Returns the end of the leading decimal digits from `start` on.
pub fn digits_end(text: &Vec<char>, start: usize) -> (end: usize)
    requires
        start <= text@.len(),
    ensures
        start <= end <= text@.len(),
        text@.subrange(start as int, end as int) == leading_digits(text@.skip(start as int)),
        text@.skip(start as int).skip(end - start) == text@.skip(end as int),
{
    let mut end = start;
    let ghost all = leading_digits(text@.skip(start as int));
    assert(text@.subrange(start as int, start as int) + leading_digits(text@.skip(start as int))
        =~= all);
    while end < text.len() && digit(text[end])
        invariant
            start <= end <= text@.len(),
            text@.subrange(start as int, end as int) + leading_digits(text@.skip(end as int))
                == all,
        decreases text.len() - end,
    {
        proof {
            let rest = text@.skip(end as int);
            assert(rest[0] == text@[end as int]);
            assert(rest.drop_first() =~= text@.skip(end + 1));
            assert(text@.subrange(start as int, end + 1) =~= text@.subrange(
                start as int,
                end as int,
            ).push(text@[end as int]));
            assert(text@.subrange(start as int, end + 1) + leading_digits(text@.skip(end + 1))
                =~= text@.subrange(start as int, end as int) + leading_digits(rest));
        }
        end += 1;
    }
    proof {
        let rest = text@.skip(end as int);
        if end < text@.len() {
            assert(rest[0] == text@[end as int]);
        }
        assert(leading_digits(rest) =~= Seq::<char>::empty());
        assert(text@.subrange(start as int, end as int) =~= all);
        assert(text@.skip(start as int).skip(end - start) =~= rest);
    }
    end
}

/// Returns where the text from `start` on begins after its leading white space.
pub fn skip_space(text: &Vec<char>, start: usize) -> (position: usize)
    requires
        start <= text@.len(),
    ensures
        start <= position <= text@.len(),
        text@.skip(position as int) == trimmed_start(text@.skip(start as int)),
{
    let mut position = start;
    while position < text.len() && space(text[position])
        invariant
            start <= position <= text@.len(),
            trimmed_start(text@.skip(position as int)) == trimmed_start(text@.skip(start as int)),
        decreases text.len() - position,
    {
        proof {
            let rest = text@.skip(position as int);
            assert(rest[0] == text@[position as int]);
            assert(rest.drop_first() =~= text@.skip(position + 1));
        }
        position += 1;
    }
    proof {
        let rest = text@.skip(position as int);
        if position < text@.len() {
            assert(rest[0] == text@[position as int]);
        }
    }
    position
}

/// Returns where the text from `start` up to `end` ends before its trailing white space.
pub fn drop_space(text: &Vec<char>, start: usize, end: usize) -> (position: usize)
    requires
        start <= end <= text@.len(),
    ensures
        start <= position <= end,
        text@.subrange(start as int, position as int) == trimmed_end(
            text@.subrange(start as int, end as int),
        ),
{
    let mut position = end;
    while position > start && space(text[position - 1])
        invariant
            start <= position <= end <= text@.len(),
            trimmed_end(text@.subrange(start as int, position as int)) == trimmed_end(
                text@.subrange(start as int, end as int),
            ),
        decreases position - start,
    {
        proof {
            let rest = text@.subrange(start as int, position as int);
            assert(rest.last() == text@[position - 1]);
            assert(rest.drop_last() =~= text@.subrange(start as int, position - 1));
        }
        position -= 1;
    }
    proof {
        let rest = text@.subrange(start as int, position as int);
        if position > start {
            assert(rest.last() == text@[position - 1]);
        }
    }
    position
}

/// Whether every character is a decimal digit.
pub open spec fn all_digits(text: Seq<char>) -> bool {
    forall|i: int| 0 <= i < text.len() ==> is_digit(#[trigger] text[i])
}

/// Leading digits are digits.
pub proof fn lemma_leading_digits(text: Seq<char>)
    ensures
        all_digits(leading_digits(text)),
        leading_digits(text).len() <= text.len(),
    decreases text.len(),
{
    if text.len() > 0 && is_digit(text[0]) {
        let rest = leading_digits(text.drop_first());
        lemma_leading_digits(text.drop_first());
        assert forall|i: int| 0 <= i < leading_digits(text).len() implies is_digit(
            #[trigger] leading_digits(text)[i],
        ) by {
            if i > 0 {
                assert(leading_digits(text)[i] == rest[i - 1]);
            }
        }
    }
}

/// Digits in front of others only make the number larger.
proof fn lemma_number_prefix(digits: Seq<char>, count: int)
    requires
        all_digits(digits),
        0 <= count <= digits.len(),
    ensures
        0 <= number_of(digits.take(count)) <= number_of(digits),
    decreases digits.len(),
{
    let front = digits.drop_last();
    if digits.len() == 0 {
        assert(digits.take(count) =~= digits);
    } else {
        assert(is_digit(digits.last()));
        assert(all_digits(front)) by {
            assert forall|i: int| 0 <= i < front.len() implies is_digit(#[trigger] front[i]) by {
                assert(is_digit(digits[i]));
            }
        }
        if count == digits.len() {
            assert(digits.take(count) =~= digits);
            lemma_number_prefix(front, 0);
            lemma_number_prefix(front, front.len() as int);
            assert(front.take(front.len() as int) =~= front);
        } else {
            assert(front.take(count) =~= digits.take(count));
            lemma_number_prefix(front, count);
        }
    }
}

/// Reads the number that the digits from `start` up to `end` stand for, if it
/// does not exceed `u128::MAX`.
pub fn read_number(text: &Vec<char>, start: usize, end: usize) -> (number: Option<u128>)
    requires
        start <= end <= text@.len(),
        all_digits(text@.subrange(start as int, end as int)),
    ensures
        match number {
            Some(number) => number == number_of(text@.subrange(start as int, end as int)),
            None => number_of(text@.subrange(start as int, end as int)) > u128::MAX,
        },
{
    let ghost digits = text@.subrange(start as int, end as int);
    let mut number: u128 = 0;
    let mut index = start;
    assert(digits.take(0) =~= Seq::<char>::empty());
    while index < end
        invariant
            start <= index <= end <= text@.len(),
            digits == text@.subrange(start as int, end as int),
            all_digits(digits),
            number == number_of(digits.take(index - start)),
        decreases end - index,
    {
        let ghost next = digits.take(index - start + 1);
        proof {
            assert(next.drop_last() =~= digits.take(index - start));
            assert(next.last() == text@[index as int]);
            assert(is_digit(digits[index - start]));
            lemma_number_prefix(digits, index - start + 1);
        }
        let digit = (text[index] as u32 - '0' as u32) as u128;
        let scaled = match number.checked_mul(10) {
            Some(scaled) => scaled,
            None => {
                return None;
            },
        };
        number = match scaled.checked_add(digit) {
            Some(sum) => sum,
            None => {
                return None;
            },
        };
        index += 1;
    }
    assert(digits.take(index - start) =~= digits);
    Some(number)
}

/// Whether a text holds nothing but white space.
pub open spec fn blank(text: Seq<char>) -> bool {
    forall|i: int| 0 <= i < text.len() ==> is_space(#[trigger] text[i])
}

/// Returns whether a text holds nothing but white space.
pub fn is_blank(text: &Vec<char>) -> (result: bool)
    ensures
        result == blank(text@),
{
    let mut index: usize = 0;
    while index < text.len()
        invariant
            index <= text@.len(),
            forall|i: int| 0 <= i < index ==> is_space(#[trigger] text@[i]),
        decreases text.len() - index,
    {
        if !space(text[index]) {
            assert(!is_space(text@[index as int]));
            return false;
        }
        index += 1;
    }
    true
}

/// Copies the characters from `start` up to `end`.
pub fn part_of(text: &Vec<char>, start: usize, end: usize) -> (part: Vec<char>)
    requires
        start <= end <= text@.len(),
    ensures
        part@ == text@.subrange(start as int, end as int),
{
    let mut part: Vec<char> = Vec::new();
    let mut index = start;
    assert(part@ =~= text@.subrange(start as int, start as int));
    while index < end
        invariant
            start <= index <= end <= text@.len(),
            part@ == text@.subrange(start as int, index as int),
        decreases end - index,
    {
        part.push(text[index]);
        assert(text@.subrange(start as int, index + 1) =~= text@.subrange(
            start as int,
            index as int,
        ).push(text@[index as int]));
        index += 1;
    }
    part
}

/// The digit for a value below ten.
pub open spec fn digit_for(value: nat) -> char {
    ('0' as u32 + value) as char
}

/// The decimal digits of a number, without leading zeroes.
pub open spec fn decimal(number: nat) -> Seq<char>
    decreases number,
{
    if number < 10 {
        seq![digit_for(number)]
    } else {
        decimal(number / 10).push(digit_for(number % 10))
    }
}

/// Appends the decimal digits of a number.
pub fn append_number(text: &mut String, number: u64)
    ensures
        final(text)@ == old(text)@ + decimal(number as nat),
    decreases number,
{
    if number >= 10 {
        append_number(text, number / 10);
    }
    let digit = (48 + (number % 10) as u8) as char;
    proof {
        assert(digit == digit_for((number % 10) as nat));
        if number < 10 {
            assert(text@.push(digit) =~= old(text)@ + decimal(number as nat));
        } else {
            assert(text@.push(digit) =~= old(text)@ + decimal(number as nat));
        }
    }
    push(text, digit);
}

/// Reading the digits of a number yields the number.
pub proof fn decimals_read_back(number: nat)
    ensures
        number_of(decimal(number)) == number,
        all_digits(decimal(number)),
        decimal(number).len() > 0,
    decreases number,
{
    let last = digit_for(number % 10);
    assert(is_digit(last) && digit_value(last) == number % 10);
    if number >= 10 {
        let front = decimal(number / 10);
        decimals_read_back(number / 10);
        assert(decimal(number).drop_last() =~= front);
        assert forall|i: int| 0 <= i < decimal(number).len() implies is_digit(
            #[trigger] decimal(number)[i],
        ) by {
            if i < front.len() {
                assert(decimal(number)[i] == front[i]);
            }
        }
    } else {
        assert(decimal(number).drop_last() =~= Seq::<char>::empty());
        assert(number_of(decimal(number).drop_last()) == 0);
    }
    assert(decimal(number).last() == last);
}

} // verus!
