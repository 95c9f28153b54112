//! Byte counts with units, as given on a command line.

use vstd::prelude::*;

use crate::text::{
    characters, digits_end, drop_space, leading_digits, lemma_leading_digits, number_of, part_of,
    read_number, same_characters, skip_space, text_of, trimmed,
};

verus! {

/// Why a text is no byte count.
#[derive(Clone, Debug, PartialEq, Eq)]
pub enum ByteCountError {
    /// It does not start with a number.
    NotANumber,
    /// The number exceeds `u128::MAX`.
    NumberTooLarge,
    /// The unit, in lower case, is not supported.
    UnsupportedSuffix(String),
    /// The bytes exceed `u128::MAX`.
    Overflowed,
    /// The bytes exceed what the target can hold.
    DoesNotFit,
}

/// Why a text is no byte count, with texts as sequences.
#[verifier::ext_equal]
pub enum ByteCountFault {
    NotANumber,
    NumberTooLarge,
    UnsupportedSuffix(Seq<char>),
    Overflowed,
    DoesNotFit,
}

impl View for ByteCountError {
    type V = ByteCountFault;

    open spec fn view(&self) -> ByteCountFault {
        match self {
            ByteCountError::NotANumber => ByteCountFault::NotANumber,
            ByteCountError::NumberTooLarge => ByteCountFault::NumberTooLarge,
            ByteCountError::UnsupportedSuffix(suffix) => ByteCountFault::UnsupportedSuffix(suffix@),
            ByteCountError::Overflowed => ByteCountFault::Overflowed,
            ByteCountError::DoesNotFit => ByteCountFault::DoesNotFit,
        }
    }
}

/// A character in ASCII lower case.
pub open spec fn lower(character: char) -> char {
    if 'A' as u32 <= character as u32 <= 'Z' as u32 {
        (character as u32 + 32) as char
    } else {
        character
    }
}

/// A text in ASCII lower case.
pub open spec fn lowered(text: Seq<char>) -> Seq<char> {
    text.map_values(|character: char| lower(character))
}

/// The bytes of one unit.
pub open spec fn unit_bytes(suffix: Seq<char>) -> Option<int> {
    if suffix == ""@ || suffix == "b"@ {
        Some(1)
    } else if suffix == "kib"@ {
        Some(1_024)
    } else if suffix == "mib"@ {
        Some(1_048_576)
    } else if suffix == "gib"@ {
        Some(1_073_741_824)
    } else if suffix == "kb"@ {
        Some(1_000)
    } else if suffix == "mb"@ {
        Some(1_000_000)
    } else if suffix == "gb"@ {
        Some(1_000_000_000)
    } else {
        None
    }
}

/// The bytes that a text stands for: a number and a unit in either case, with
/// white space around and between them.
pub open spec fn byte_count(text: Seq<char>) -> Result<int, ByteCountFault> {
    let digits = leading_digits(trimmed(text));
    let suffix = lowered(trimmed(trimmed(text).skip(digits.len() as int)));
    if digits.len() == 0 {
        Err(ByteCountFault::NotANumber)
    } else if number_of(digits) > u128::MAX {
        Err(ByteCountFault::NumberTooLarge)
    } else {
        match unit_bytes(suffix) {
            None => Err(ByteCountFault::UnsupportedSuffix(suffix)),
            Some(unit) => if number_of(digits) * unit > u128::MAX {
                Err(ByteCountFault::Overflowed)
            } else {
                Ok(number_of(digits) * unit)
            },
        }
    }
}

/// The byte count of a text, if it is at most `limit`.
pub open spec fn byte_count_within(text: Seq<char>, limit: int) -> Result<int, ByteCountFault> {
    match byte_count(text) {
        Ok(bytes) => if bytes > limit {
            Err(ByteCountFault::DoesNotFit)
        } else {
            Ok(bytes)
        },
        Err(error) => Err(error),
    }
}

/// Copies a text without white space at either end.
fn trim(text: &Vec<char>) -> (result: Vec<char>)
    ensures
        result@ == trimmed(text@),
{
    assert(text@.skip(0) =~= text@);
    let start = skip_space(text, 0);
    assert(text@.subrange(start as int, text@.len() as int) =~= text@.skip(start as int));
    let end = drop_space(text, start, text.len());
    part_of(text, start, end)
}

/// Returns a character in ASCII lower case.
fn to_lower(character: char) -> (result: char)
    ensures
        result == lower(character),
{
    let code = character as u32;
    if 'A' as u32 <= code && code <= 'Z' as u32 {
        (code as u8 + 32) as char
    } else {
        character
    }
}

/// Copies a text in ASCII lower case.
fn to_lowercase(text: &Vec<char>) -> (result: Vec<char>)
    ensures
        result@ == lowered(text@),
{
    let mut result: Vec<char> = Vec::new();
    let mut index: usize = 0;
    while index < text.len()
        invariant
            index <= text@.len(),
            result@.len() == index,
            forall|i: int| 0 <= i < index ==> #[trigger] result@[i] == lower(text@[i]),
        decreases text.len() - index,
    {
        result.push(to_lower(text[index]));
        index += 1;
    }
    assert(result@ =~= lowered(text@));
    result
}

/// Returns the bytes of one unit.
fn multiplier(suffix: &Vec<char>) -> (unit: Option<u128>)
    ensures
        match unit {
            Some(unit) => unit_bytes(suffix@) == Some(unit as int),
            None => unit_bytes(suffix@) is None,
        },
{
    if same_characters(suffix, &characters("")) || same_characters(suffix, &characters("b")) {
        Some(1)
    } else if same_characters(suffix, &characters("kib")) {
        Some(1_024)
    } else if same_characters(suffix, &characters("mib")) {
        Some(1_048_576)
    } else if same_characters(suffix, &characters("gib")) {
        Some(1_073_741_824)
    } else if same_characters(suffix, &characters("kb")) {
        Some(1_000)
    } else if same_characters(suffix, &characters("mb")) {
        Some(1_000_000)
    } else if same_characters(suffix, &characters("gb")) {
        Some(1_000_000_000)
    } else {
        None
    }
}

/// Parses a byte count such as `8MiB` or `1 mb`.
pub fn parse_byte_count(value: &str) -> (result: Result<u128, ByteCountError>)
    ensures
        match result {
            Ok(bytes) => byte_count(value@) == Ok::<int, ByteCountFault>(bytes as int),
            Err(error) => byte_count(value@) == Err::<int, ByteCountFault>(error@),
        },
{
    let text = trim(&characters(value));
    assert(text@.skip(0) =~= text@);
    let split = digits_end(&text, 0);
    proof {
        lemma_leading_digits(text@);
    }
    if split == 0 {
        return Err(ByteCountError::NotANumber);
    }
    let number = match read_number(&text, 0, split) {
        Some(number) => number,
        None => {
            return Err(ByteCountError::NumberTooLarge);
        },
    };
    let rest = part_of(&text, split, text.len());
    assert(rest@ =~= text@.skip(split as int));
    let suffix = to_lowercase(&trim(&rest));
    let unit = match multiplier(&suffix) {
        Some(unit) => unit,
        None => {
            let unsupported = text_of(&suffix, 0, suffix.len());
            assert(unsupported@ =~= suffix@);
            return Err(ByteCountError::UnsupportedSuffix(unsupported));
        },
    };
    match number.checked_mul(unit) {
        Some(bytes) => Ok(bytes),
        None => Err(ByteCountError::Overflowed),
    }
}

/// Parses a byte count that a buffer can have.
pub fn parse_bytes(value: &str) -> (result: Result<usize, ByteCountError>)
    ensures
        match result {
            Ok(bytes) => byte_count_within(value@, usize::MAX as int) == Ok::<int, ByteCountFault>(
                bytes as int,
            ),
            Err(error) => byte_count_within(value@, usize::MAX as int) == Err::<
                int,
                ByteCountFault,
            >(error@),
        },
{
    let bytes = match parse_byte_count(value) {
        Ok(bytes) => bytes,
        Err(error) => {
            return Err(error);
        },
    };
    if bytes > usize::MAX as u128 {
        return Err(ByteCountError::DoesNotFit);
    }
    Ok(bytes as usize)
}

/// Returns the byte count of an optional setting, or its default.
pub fn byte_count_or(value: Option<String>, default: u64) -> (result: Result<u64, ByteCountError>)
    ensures
        match (value, result) {
            (None, _) => result == Ok::<u64, ByteCountError>(default),
            (Some(value), Ok(bytes)) => byte_count_within(value@, u64::MAX as int) == Ok::<
                int,
                ByteCountFault,
            >(bytes as int),
            (Some(value), Err(error)) => byte_count_within(value@, u64::MAX as int) == Err::<
                int,
                ByteCountFault,
            >(error@),
        },
{
    match value {
        None => Ok(default),
        Some(value) => {
            let bytes = match parse_byte_count(value.as_str()) {
                Ok(bytes) => bytes,
                Err(error) => {
                    return Err(error);
                },
            };
            if bytes > u64::MAX as u128 {
                return Err(ByteCountError::DoesNotFit);
            }
            Ok(bytes as u64)
        },
    }
}

} // verus!
