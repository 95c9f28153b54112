//! UTC timestamps of captured accesses.

use vstd::prelude::*;
use vstd::string::StringSliceAdditionalSpecFns;

verus! {

/// The ASCII codes that a timestamp is made of.
pub const PLUS: u8 = 43;

pub const DASH: u8 = 45;

pub const POINT: u8 = 46;

pub const ZERO: u8 = 48;

pub const NINE: u8 = 57;

pub const COLON: u8 = 58;

pub const TIME_MARK: u8 = 84;

pub const UTC_MARK: u8 = 90;

/// One part of a timestamp.
#[derive(Clone, Copy, Debug, PartialEq, Eq, Structural)]
pub enum TimestampPart {
    Year,
    Month,
    Day,
    Hour,
    Minute,
    Second,
    Millisecond,
}

/// Why a text is no timestamp.
#[derive(Clone, Copy, Debug, PartialEq, Eq, Structural)]
pub enum TimestampError {
    /// It does not have the shape of a supported UTC RFC 3339 value.
    Unsupported,
    /// A part is no number.
    InvalidPart(TimestampPart),
    /// A part other than the day is out of range.
    PartOutOfRange,
    /// The month has no such day.
    DayOutOfRange,
}

/// Whether a year of the proleptic Gregorian calendar is a leap year.
pub open spec fn leap_year(year: int) -> bool {
    year % 4 == 0 && (year % 100 != 0 || year % 400 == 0)
}

/// The days of a month, which is counted from 1.
pub open spec fn month_length(year: int, month: int) -> int {
    if month == 2 {
        if leap_year(year) {
            29
        } else {
            28
        }
    } else if month == 4 || month == 6 || month == 9 || month == 11 {
        30
    } else {
        31
    }
}

/// The days of a year.
pub open spec fn year_length(year: int) -> int {
    if leap_year(year) {
        366
    } else {
        365
    }
}

/// The days of the years from year 1 up to `year`.
pub open spec fn days_before_year(year: int) -> int
    decreases year,
{
    if year <= 1 {
        0
    } else {
        days_before_year(year - 1) + year_length(year - 1)
    }
}

/// The days of the year's months before `month`.
pub open spec fn days_before_month(year: int, month: int) -> int
    decreases month,
{
    if month <= 1 {
        0
    } else {
        days_before_month(year, month - 1) + month_length(year, month - 1)
    }
}

/// A point in time by its calendar parts.
#[verifier::ext_equal]
pub struct Civil {
    pub year: int,
    pub month: int,
    pub day: int,
    pub hour: int,
    pub minute: int,
    pub second: int,
    pub millis: int,
}

impl Civil {
    /// Whether all parts but the day are in range.
    pub open spec fn parts_in_range(self) -> bool {
        &&& 1 <= self.year
        &&& 1 <= self.month <= 12
        &&& 0 <= self.hour <= 23
        &&& 0 <= self.minute <= 59
        &&& 0 <= self.second <= 59
    }

    /// Whether the month has the day.
    pub open spec fn day_in_range(self) -> bool {
        1 <= self.day <= month_length(self.year, self.month)
    }

    /// Whole days since the first day of year 1.
    pub open spec fn days(self) -> int {
        days_before_year(self.year) + days_before_month(self.year, self.month) + self.day - 1
    }

    /// Milliseconds since the first day of year 1.
    pub open spec fn timestamp(self) -> int {
        (((self.days() * 24 + self.hour) * 60 + self.minute) * 60 + self.second) * 1_000
            + self.millis
    }

    /// Whether this comes before `other` on the calendar.
    pub open spec fn precedes(self, other: Civil) -> bool {
        ||| self.year < other.year
        ||| self.year == other.year && self.month < other.month
        ||| self.year == other.year && self.month == other.month && self.day < other.day
        ||| self.year == other.year && self.month == other.month && self.day == other.day
            && self.clock() < other.clock()
    }

    /// Milliseconds since midnight.
    pub open spec fn clock(self) -> int {
        ((self.hour * 60 + self.minute) * 60 + self.second) * 1_000 + self.millis
    }
}

/// The number that decimal digits, possibly after a plus sign, stand for.
pub open spec fn part_value(bytes: Seq<u8>) -> Option<int> {
    let digits = if bytes.len() > 0 && bytes[0] == PLUS {
        bytes.drop_first()
    } else {
        bytes
    };
    if digits.len() > 0 && ascii_digits(digits) {
        Some(digits_value(digits))
    } else {
        None
    }
}

/// Whether all bytes are ASCII digits.
pub open spec fn ascii_digits(bytes: Seq<u8>) -> bool {
    forall|i: int| 0 <= i < bytes.len() ==> ZERO <= #[trigger] bytes[i] <= NINE
}

/// The number that ASCII digits stand for.
pub open spec fn digits_value(digits: Seq<u8>) -> int
    decreases digits.len(),
{
    if digits.len() == 0 {
        0
    } else {
        10 * digits_value(digits.drop_last()) + (digits.last() - ZERO)
    }
}

/// Whether `bytes` read `YYYY-MM-DDThh:mm:ssZ` or `YYYY-MM-DDThh:mm:ss.sssZ`,
/// going by the punctuation alone.
pub open spec fn timestamp_shape(bytes: Seq<u8>) -> bool {
    &&& (bytes.len() == 20 && bytes[19] == UTC_MARK) || (bytes.len() == 24 && bytes[19] == POINT
        && bytes[23] == UTC_MARK)
    &&& bytes[4] == DASH
    &&& bytes[7] == DASH
    &&& bytes[10] == TIME_MARK
    &&& bytes[13] == COLON
    &&& bytes[16] == COLON
}

/// The value of a part of the timestamp text, or the error that it is none.
pub open spec fn part_at(
    bytes: Seq<u8>,
    start: int,
    end: int,
    part: TimestampPart,
) -> Result<int, TimestampError> {
    match part_value(bytes.subrange(start, end)) {
        Some(value) => Ok(value),
        None => Err(TimestampError::InvalidPart(part)),
    }
}

/// The value of the millisecond part, which is zero where it is left out.
pub open spec fn millis_at(bytes: Seq<u8>) -> Result<int, TimestampError> {
    if bytes.len() == 24 {
        part_at(bytes, 20, 23, TimestampPart::Millisecond)
    } else {
        Ok(0)
    }
}

/// The point in time that a timestamp text stands for, going by its parts; the
/// first part that is no number is the error.
pub open spec fn civil_of(bytes: Seq<u8>) -> Result<Civil, TimestampError> {
    match (
        part_at(bytes, 0, 4, TimestampPart::Year),
        part_at(bytes, 5, 7, TimestampPart::Month),
        part_at(bytes, 8, 10, TimestampPart::Day),
        part_at(bytes, 11, 13, TimestampPart::Hour),
        part_at(bytes, 14, 16, TimestampPart::Minute),
        part_at(bytes, 17, 19, TimestampPart::Second),
        millis_at(bytes),
    ) {
        (Err(error), _, _, _, _, _, _) => Err(error),
        (_, Err(error), _, _, _, _, _) => Err(error),
        (_, _, Err(error), _, _, _, _) => Err(error),
        (_, _, _, Err(error), _, _, _) => Err(error),
        (_, _, _, _, Err(error), _, _) => Err(error),
        (_, _, _, _, _, Err(error), _) => Err(error),
        (_, _, _, _, _, _, Err(error)) => Err(error),
        (Ok(year), Ok(month), Ok(day), Ok(hour), Ok(minute), Ok(second), Ok(millis)) => Ok(
            Civil { year, month, day, hour, minute, second, millis },
        ),
    }
}

/// The milliseconds that a timestamp text stands for.
pub open spec fn timestamp_of(bytes: Seq<u8>) -> Result<int, TimestampError> {
    if !timestamp_shape(bytes) {
        Err(TimestampError::Unsupported)
    } else {
        match civil_of(bytes) {
            Err(error) => Err(error),
            Ok(civil) => if !civil.parts_in_range() {
                Err(TimestampError::PartOutOfRange)
            } else if !civil.day_in_range() {
                Err(TimestampError::DayOutOfRange)
            } else {
                Ok(civil.timestamp())
            },
        }
    }
}

/// Reads one part of the timestamp text.
fn read_part(bytes: &[u8], start: usize, end: usize, part: TimestampPart) -> (result: Result<
    u64,
    TimestampError,
>)
    requires
        start < end <= bytes@.len(),
        end - start <= 4,
    ensures
        match result {
            Ok(value) => part_at(bytes@, start as int, end as int, part) == Ok::<
                int,
                TimestampError,
            >(value as int) && value <= 9_999,
            Err(error) => part_at(bytes@, start as int, end as int, part) == Err::<
                int,
                TimestampError,
            >(error),
        },
{
    let ghost text = bytes@.subrange(start as int, end as int);
    let first = if bytes[start] == PLUS { start + 1 } else { start };
    let ghost digits = if text[0] == PLUS { text.drop_first() } else { text };
    assert(digits =~= bytes@.subrange(first as int, end as int));
    if first == end {
        return Err(TimestampError::InvalidPart(part));
    }
    let mut value: u64 = 0;
    let mut bound: Ghost<int> = Ghost(1);
    let mut index = first;
    assert(digits.take(0) =~= Seq::<u8>::empty());
    while index < end
        invariant
            first <= index <= end <= bytes@.len(),
            end - first <= 4,
            digits == bytes@.subrange(first as int, end as int),
            text == bytes@.subrange(start as int, end as int),
            text.len() > 0,
            digits == (if text[0] == PLUS {
                text.drop_first()
            } else {
                text
            }),
            forall|i: int| 0 <= i < index - first ==> ZERO <= #[trigger] digits[i] <= NINE,
            value == digits_value(digits.take(index - first)),
            value < bound@,
            bound@ == (if index - first == 0 {
                1int
            } else if index - first == 1 {
                10
            } else if index - first == 2 {
                100
            } else if index - first == 3 {
                1_000
            } else {
                10_000
            }),
        decreases end - index,
    {
        let byte = bytes[index];
        proof {
            let next = digits.take(index - first + 1);
            assert(next.drop_last() =~= digits.take(index - first));
            assert(next.last() == byte);
            assert(digits[index - first] == byte);
        }
        if byte < ZERO || byte > NINE {
            assert(!(ZERO <= digits[index - first] <= NINE));
            return Err(TimestampError::InvalidPart(part));
        }
        value = value * 10 + (byte - ZERO) as u64;
        proof {
            bound@ = bound@ * 10;
        }
        index += 1;
    }
    assert(digits.take(index - first) =~= digits);
    Ok(value)
}

/// The usual count of leap days matches the calendar.
proof fn lemma_days_before_year(year: int)
    requires
        1 <= year,
    ensures
        days_before_year(year) == (year - 1) * 365 + (year - 1) / 4 - (year - 1) / 100 + (year - 1)
            / 400,
        days_before_year(year) >= 0,
    decreases year,
{
    if year > 1 {
        lemma_days_before_year(year - 1);
    }
}

/// Returns the days of a month.
fn length_of_month(year: u64, month: u64) -> (length: u64)
    requires
        1 <= month <= 12,
    ensures
        length == month_length(year as int, month as int),
{
    let leap = year % 4 == 0 && (year % 100 != 0 || year % 400 == 0);
    if month == 2 {
        if leap {
            29
        } else {
            28
        }
    } else if month == 4 || month == 6 || month == 9 || month == 11 {
        30
    } else {
        31
    }
}

/// Parses a UTC RFC 3339 timestamp with whole seconds or milliseconds, as
/// milliseconds since the first day of year 1.
pub fn parse_timestamp_millis(value: &str) -> (result: Result<u64, TimestampError>)
    ensures
        match result {
            Ok(millis) => timestamp_of(value.spec_bytes()) == Ok::<int, TimestampError>(
                millis as int,
            ),
            Err(error) => timestamp_of(value.spec_bytes()) == Err::<int, TimestampError>(error),
        },
{
    let bytes = value.as_bytes();
    let valid_suffix = (bytes.len() == 20 && bytes[19] == UTC_MARK) || (bytes.len() == 24 && bytes[19]
        == POINT && bytes[23] == UTC_MARK);
    if !valid_suffix || bytes[4] != DASH || bytes[7] != DASH || bytes[10] != TIME_MARK || bytes[13] != COLON
        || bytes[16] != COLON {
        return Err(TimestampError::Unsupported);
    }
    let year = match read_part(bytes, 0, 4, TimestampPart::Year) {
        Ok(year) => year,
        Err(error) => {
            return Err(error);
        },
    };
    let month = match read_part(bytes, 5, 7, TimestampPart::Month) {
        Ok(month) => month,
        Err(error) => {
            return Err(error);
        },
    };
    let day = match read_part(bytes, 8, 10, TimestampPart::Day) {
        Ok(day) => day,
        Err(error) => {
            return Err(error);
        },
    };
    let hour = match read_part(bytes, 11, 13, TimestampPart::Hour) {
        Ok(hour) => hour,
        Err(error) => {
            return Err(error);
        },
    };
    let minute = match read_part(bytes, 14, 16, TimestampPart::Minute) {
        Ok(minute) => minute,
        Err(error) => {
            return Err(error);
        },
    };
    let second = match read_part(bytes, 17, 19, TimestampPart::Second) {
        Ok(second) => second,
        Err(error) => {
            return Err(error);
        },
    };
    let millis = if bytes.len() == 24 {
        match read_part(bytes, 20, 23, TimestampPart::Millisecond) {
            Ok(millis) => millis,
            Err(error) => {
                return Err(error);
            },
        }
    } else {
        0
    };
    let ghost civil = Civil {
        year: year as int,
        month: month as int,
        day: day as int,
        hour: hour as int,
        minute: minute as int,
        second: second as int,
        millis: millis as int,
    };
    assert(civil_of(bytes@) == Ok::<Civil, TimestampError>(civil));
    if year == 0 || month < 1 || month > 12 || hour > 23 || minute > 59 || second > 59 {
        return Err(TimestampError::PartOutOfRange);
    }
    if day == 0 || day > length_of_month(year, month) {
        return Err(TimestampError::DayOutOfRange);
    }
    proof {
        lemma_days_before_year(year as int);
    }
    let previous_year = year - 1;
    let days_before_this_year = previous_year * 365 + previous_year / 4 - previous_year / 100
        + previous_year / 400;
    let mut days_before_this_month: u64 = 0;
    let mut earlier: u64 = 1;
    while earlier < month
        invariant
            1 <= earlier <= month <= 12,
            days_before_this_month == days_before_month(year as int, earlier as int),
            days_before_this_month <= 31 * (earlier - 1),
        decreases month - earlier,
    {
        days_before_this_month = days_before_this_month + length_of_month(year, earlier);
        earlier += 1;
    }
    let days = days_before_this_year + days_before_this_month + day - 1;
    Ok((((days * 24 + hour) * 60 + minute) * 60 + second) * 1_000 + millis)
}

proof fn lemma_month_days(year: int, one: int, other: int)
    requires
        1 <= one <= other <= 12,
    ensures
        0 <= days_before_month(year, one),
        one < other ==> days_before_month(year, one) + month_length(year, one)
            <= days_before_month(year, other),
    decreases other,
{
    if one < other {
        lemma_month_days(year, one, other - 1);
    } else if one > 1 {
        lemma_month_days(year, one - 1, one - 1);
    }
}

proof fn lemma_year_days(one: int, other: int)
    requires
        1 <= one <= other,
    ensures
        one < other ==> days_before_year(one) + year_length(one) <= days_before_year(other),
    decreases other,
{
    if one < other {
        lemma_year_days(one, other - 1);
    }
}

/// The days before a month and its own stay within the year.
proof fn lemma_month_in_year(year: int, month: int)
    requires
        1 <= month <= 12,
    ensures
        days_before_month(year, month) + month_length(year, month) <= year_length(year),
        days_before_month(year, month) >= 0,
{
    reveal_with_fuel(days_before_month, 13);
}

/// Timestamps order as the calendar does.
pub proof fn timestamps_follow_the_calendar(one: Civil, other: Civil)
    requires
        one.parts_in_range(),
        one.day_in_range(),
        0 <= one.millis <= 999,
        other.parts_in_range(),
        other.day_in_range(),
        0 <= other.millis <= 999,
        one.precedes(other),
    ensures
        one.timestamp() < other.timestamp(),
{
    lemma_month_in_year(one.year, one.month);
    lemma_month_in_year(other.year, other.month);
    if one.year < other.year {
        lemma_year_days(one.year, other.year);
        assert(one.days() < other.days());
    } else if one.month < other.month {
        lemma_month_days(one.year, one.month, other.month);
        assert(one.days() < other.days());
    } else if one.day < other.day {
        assert(one.days() < other.days());
    }
}

/// The months have 31, 28, 31, 30, 31, 30, 31, 31, 30, 31, 30 and 31 days, and the
/// second one has a day more in every fourth year but three centuries of four.
pub proof fn months_have_their_lengths(year: int)
    ensures
        ({
            let extra = if (year % 4 == 0 && year % 100 != 0) || year % 400 == 0 {
                1int
            } else {
                0int
            };
            &&& month_length(year, 1) == 31
            &&& month_length(year, 2) == 28 + extra
            &&& month_length(year, 3) == 31
            &&& month_length(year, 4) == 30
            &&& month_length(year, 5) == 31
            &&& month_length(year, 6) == 30
            &&& month_length(year, 7) == 31
            &&& month_length(year, 8) == 31
            &&& month_length(year, 9) == 30
            &&& month_length(year, 10) == 31
            &&& month_length(year, 11) == 30
            &&& month_length(year, 12) == 31
            &&& days_before_month(year, 1) == 0
            &&& days_before_month(year, 2) == 31
            &&& days_before_month(year, 3) == 59 + extra
            &&& days_before_month(year, 4) == 90 + extra
            &&& days_before_month(year, 5) == 120 + extra
            &&& days_before_month(year, 6) == 151 + extra
            &&& days_before_month(year, 7) == 181 + extra
            &&& days_before_month(year, 8) == 212 + extra
            &&& days_before_month(year, 9) == 243 + extra
            &&& days_before_month(year, 10) == 273 + extra
            &&& days_before_month(year, 11) == 304 + extra
            &&& days_before_month(year, 12) == 334 + extra
        }),
{
    reveal_with_fuel(days_before_month, 13);
}

/// The days before a year: 365 for each year before it, and one more for each of
/// those that is a leap year. Four centuries always have 146097 days.
pub proof fn years_have_their_lengths(year: int)
    requires
        1 <= year,
    ensures
        days_before_year(year) == (year - 1) * 365 + (year - 1) / 4 - (year - 1) / 100 + (year - 1)
            / 400,
        days_before_year(year + 400) == days_before_year(year) + 146_097,
{
    lemma_days_before_year(year);
    lemma_days_before_year(year + 400);
}

/// From any day of the calendar to the next one, at the same time of day, are
/// 86,400,000 milliseconds: within a month, over the end of a month, and over the
/// end of a year.
pub proof fn days_follow_one_another(one: Civil, other: Civil)
    requires
        1 <= one.year,
        1 <= one.month <= 12,
        one.hour == other.hour,
        one.minute == other.minute,
        one.second == other.second,
        one.millis == other.millis,
        ({
            let leap = (one.year % 4 == 0 && one.year % 100 != 0) || one.year % 400 == 0;
            let last = if one.month == 2 {
                if leap {
                    29int
                } else {
                    28int
                }
            } else if one.month == 4 || one.month == 6 || one.month == 9 || one.month == 11 {
                30int
            } else {
                31int
            };
            if one.day == last {
                &&& other.day == 1
                &&& if one.month == 12 {
                    other.year == one.year + 1 && other.month == 1
                } else {
                    other.year == one.year && other.month == one.month + 1
                }
            } else {
                other.year == one.year && other.month == one.month && other.day == one.day + 1
            }
        }),
    ensures
        other.timestamp() == one.timestamp() + 86_400_000,
{
    months_have_their_lengths(one.year);
    months_have_their_lengths(other.year);
    reveal_with_fuel(days_before_year, 2);
    assert(other.days() == one.days() + 1);
}

/// Within a day, an hour has 3,600,000 milliseconds, a minute 60,000 and a second
/// 1,000.
pub proof fn times_of_day_are_milliseconds(one: Civil, other: Civil)
    requires
        one.year == other.year,
        one.month == other.month,
        one.day == other.day,
    ensures
        other.timestamp() - one.timestamp() == 3_600_000 * (other.hour - one.hour) + 60_000 * (
        other.minute - one.minute) + 1_000 * (other.second - one.second) + (other.millis
            - one.millis),
{
}

/// Time is counted from the first moment of year 1.
pub proof fn time_starts_with_year_one(civil: Civil)
    requires
        civil.year == 1,
        civil.month == 1,
    ensures
        civil.days() == civil.day - 1,
{
    reveal_with_fuel(days_before_month, 2);
    reveal_with_fuel(days_before_year, 2);
}

proof fn lemma_two_digits(bytes: Seq<u8>)
    requires
        bytes.len() == 2,
        48 <= bytes[0] <= 57,
        48 <= bytes[1] <= 57,
    ensures
        part_value(bytes) == Some(10 * (bytes[0] - 48) + (bytes[1] - 48)),
{
    reveal_with_fuel(digits_value, 3);
    assert(bytes.drop_last().drop_last().len() == 0);
}

proof fn lemma_three_digits(bytes: Seq<u8>)
    requires
        bytes.len() == 3,
        48 <= bytes[0] <= 57,
        48 <= bytes[1] <= 57,
        48 <= bytes[2] <= 57,
    ensures
        part_value(bytes) == Some(
            100 * (bytes[0] - 48) + 10 * (bytes[1] - 48) + (bytes[2] - 48),
        ),
{
    reveal_with_fuel(digits_value, 4);
    assert(bytes.drop_last().drop_last().drop_last().len() == 0);
}

proof fn lemma_four_digits(bytes: Seq<u8>)
    requires
        bytes.len() == 4,
        48 <= bytes[0] <= 57,
        48 <= bytes[1] <= 57,
        48 <= bytes[2] <= 57,
        48 <= bytes[3] <= 57,
    ensures
        part_value(bytes) == Some(
            1_000 * (bytes[0] - 48) + 100 * (bytes[1] - 48) + 10 * (bytes[2] - 48) + (bytes[3]
                - 48),
        ),
{
    reveal_with_fuel(digits_value, 5);
    assert(bytes.drop_last().drop_last().drop_last().drop_last().len() == 0);
}

/// A text of the form `YYYY-MM-DDThh:mm:ssZ` or `YYYY-MM-DDThh:mm:ss.sssZ` is read
/// digit by digit: it is refused where a part or the day does not exist, and stands
/// for its milliseconds since the first day of year 1 otherwise.
pub proof fn timestamps_are_read_digit_by_digit(bytes: Seq<u8>)
    requires
        bytes.len() == 20 || bytes.len() == 24,
        forall|i: int|
            0 <= i < 19 && i != 4 && i != 7 && i != 10 && i != 13 && i != 16 ==> 48
                <= #[trigger] bytes[i] <= 57,
        bytes[4] == 45,
        bytes[7] == 45,
        bytes[10] == 84,
        bytes[13] == 58,
        bytes[16] == 58,
        bytes.len() == 20 ==> bytes[19] == 90,
        bytes.len() == 24 ==> bytes[19] == 46 && bytes[23] == 90 && 48 <= bytes[20] <= 57 && 48
            <= bytes[21] <= 57 && 48 <= bytes[22] <= 57,
    ensures
        ({
            let year = 1_000 * (bytes[0] - 48) + 100 * (bytes[1] - 48) + 10 * (bytes[2] - 48) + (
            bytes[3] - 48);
            let month = 10 * (bytes[5] - 48) + (bytes[6] - 48);
            let day = 10 * (bytes[8] - 48) + (bytes[9] - 48);
            let hour = 10 * (bytes[11] - 48) + (bytes[12] - 48);
            let minute = 10 * (bytes[14] - 48) + (bytes[15] - 48);
            let second = 10 * (bytes[17] - 48) + (bytes[18] - 48);
            let millis = if bytes.len() == 24 {
                100 * (bytes[20] - 48) + 10 * (bytes[21] - 48) + (bytes[22] - 48)
            } else {
                0int
            };
            let extra = if (year % 4 == 0 && year % 100 != 0) || year % 400 == 0 {
                1int
            } else {
                0int
            };
            let last = if month == 2 {
                28 + extra
            } else if month == 4 || month == 6 || month == 9 || month == 11 {
                30int
            } else {
                31int
            };
            let before = if month == 1 {
                0int
            } else if month == 2 {
                31int
            } else if month == 3 {
                59 + extra
            } else if month == 4 {
                90 + extra
            } else if month == 5 {
                120 + extra
            } else if month == 6 {
                151 + extra
            } else if month == 7 {
                181 + extra
            } else if month == 8 {
                212 + extra
            } else if month == 9 {
                243 + extra
            } else if month == 10 {
                273 + extra
            } else if month == 11 {
                304 + extra
            } else {
                334 + extra
            };
            let days = (year - 1) * 365 + (year - 1) / 4 - (year - 1) / 100 + (year - 1) / 400
                + before + day - 1;
            if year == 0 || month == 0 || month > 12 || hour > 23 || minute > 59 || second > 59 {
                timestamp_of(bytes) == Err::<int, TimestampError>(TimestampError::PartOutOfRange)
            } else if day == 0 || day > last {
                timestamp_of(bytes) == Err::<int, TimestampError>(TimestampError::DayOutOfRange)
            } else {
                timestamp_of(bytes) == Ok::<int, TimestampError>(
                    days * 86_400_000 + hour * 3_600_000 + minute * 60_000 + second * 1_000
                        + millis,
                )
            }
        }),
{
    lemma_four_digits(bytes.subrange(0, 4));
    lemma_two_digits(bytes.subrange(5, 7));
    lemma_two_digits(bytes.subrange(8, 10));
    lemma_two_digits(bytes.subrange(11, 13));
    lemma_two_digits(bytes.subrange(14, 16));
    lemma_two_digits(bytes.subrange(17, 19));
    if bytes.len() == 24 {
        lemma_three_digits(bytes.subrange(20, 23));
    }
    let year = 1_000 * (bytes[0] - 48) + 100 * (bytes[1] - 48) + 10 * (bytes[2] - 48) + (bytes[3]
        - 48);
    months_have_their_lengths(year);
    if year >= 1 {
        years_have_their_lengths(year);
    }
}

/// A text is refused as unsupported exactly if its length or its punctuation is
/// another than that of the two forms.
pub proof fn other_forms_are_unsupported(bytes: Seq<u8>)
    ensures
        timestamp_of(bytes) == Err::<int, TimestampError>(TimestampError::Unsupported) <==> !({
            &&& bytes.len() == 20 || bytes.len() == 24
            &&& bytes[4] == 45
            &&& bytes[7] == 45
            &&& bytes[10] == 84
            &&& bytes[13] == 58
            &&& bytes[16] == 58
            &&& bytes.len() == 20 ==> bytes[19] == 90
            &&& bytes.len() == 24 ==> bytes[19] == 46 && bytes[23] == 90
        }),
{
}

/// A text of either form in which some digit is none, nor a leading plus sign of its
/// part, is refused; and so is a part that is only a sign.
pub proof fn parts_without_digits_are_refused(bytes: Seq<u8>, i: int)
    requires
        bytes.len() == 20 || bytes.len() == 24,
        0 <= i < 19,
        i != 4 && i != 7 && i != 10 && i != 13 && i != 16,
        bytes[i] < 48 || bytes[i] > 57,
        bytes[i] == 43 ==> i != 0 && i != 5 && i != 8 && i != 11 && i != 14 && i != 17,
    ensures
        timestamp_of(bytes) is Err,
{
    if timestamp_shape(bytes) {
        let (start, end) = if i < 4 {
            (0int, 4int)
        } else if i < 7 {
            (5int, 7int)
        } else if i < 10 {
            (8int, 10int)
        } else if i < 13 {
            (11int, 13int)
        } else if i < 16 {
            (14int, 16int)
        } else {
            (17int, 19int)
        };
        let part = bytes.subrange(start, end);
        assert(part[i - start] == bytes[i]);
        if part[0] == PLUS {
            assert(part.drop_first()[i - start - 1] == bytes[i]);
        }
        assert(part_value(part) is None);
    }
}

/// Of a text of either form, the first part that is no number is named.
pub proof fn the_first_part_that_is_no_number_is_named(bytes: Seq<u8>, i: int)
    requires
        bytes.len() == 20 || bytes.len() == 24,
        bytes[4] == 45,
        bytes[7] == 45,
        bytes[10] == 84,
        bytes[13] == 58,
        bytes[16] == 58,
        bytes.len() == 20 ==> bytes[19] == 90,
        bytes.len() == 24 ==> bytes[19] == 46 && bytes[23] == 90,
        0 <= i < 19 || (bytes.len() == 24 && 20 <= i < 23),
        i != 4 && i != 7 && i != 10 && i != 13 && i != 16,
        bytes[i] < 48 || bytes[i] > 57,
        bytes[i] == 43 ==> i != 0 && i != 5 && i != 8 && i != 11 && i != 14 && i != 17 && i != 20,
        forall|j: int|
            0 <= j < i && j != 4 && j != 7 && j != 10 && j != 13 && j != 16 && j != 19 ==> 48
                <= #[trigger] bytes[j] <= 57,
    ensures
        timestamp_of(bytes) == Err::<int, TimestampError>(
            TimestampError::InvalidPart(
                if i < 4 {
                    TimestampPart::Year
                } else if i < 7 {
                    TimestampPart::Month
                } else if i < 10 {
                    TimestampPart::Day
                } else if i < 13 {
                    TimestampPart::Hour
                } else if i < 16 {
                    TimestampPart::Minute
                } else if i < 19 {
                    TimestampPart::Second
                } else {
                    TimestampPart::Millisecond
                },
            ),
        ),
{
    if i > 4 {
        lemma_four_digits(bytes.subrange(0, 4));
    }
    if i > 7 {
        lemma_two_digits(bytes.subrange(5, 7));
    }
    if i > 10 {
        lemma_two_digits(bytes.subrange(8, 10));
    }
    if i > 13 {
        lemma_two_digits(bytes.subrange(11, 13));
    }
    if i > 16 {
        lemma_two_digits(bytes.subrange(14, 16));
    }
    if i > 19 {
        lemma_two_digits(bytes.subrange(17, 19));
    }
    let (start, end) = if i < 4 {
        (0int, 4int)
    } else if i < 7 {
        (5int, 7int)
    } else if i < 10 {
        (8int, 10int)
    } else if i < 13 {
        (11int, 13int)
    } else if i < 16 {
        (14int, 16int)
    } else if i < 19 {
        (17int, 19int)
    } else {
        (20int, 23int)
    };
    let part = bytes.subrange(start, end);
    assert(part[i - start] == bytes[i]);
    if part[0] == PLUS {
        assert(part.drop_first()[i - start - 1] == bytes[i]);
    }
    assert(part_value(part) is None);
}

/// In front of the digits of a part, a plus sign reads as a zero does; alone it is no
/// number.
pub proof fn plus_signs_read_as_zeroes(digits: Seq<u8>)
    requires
        forall|i: int| 0 <= i < digits.len() ==> 48 <= #[trigger] digits[i] <= 57,
    ensures
        part_value(seq![43u8]) is None,
        digits.len() > 0 ==> part_value(seq![43u8] + digits) == part_value(digits),
        digits.len() > 0 ==> part_value(seq![48u8] + digits) == part_value(digits),
        digits.len() > 0 ==> part_value(digits) is Some,
{
    let signed = seq![43u8] + digits;
    let zeroed = seq![48u8] + digits;
    assert(seq![43u8].drop_first() =~= Seq::<u8>::empty());
    if digits.len() > 0 {
        assert(signed.drop_first() =~= digits);
        assert(48 <= digits[0] <= 57);
        assert(zeroed[0] == 48);
        assert forall|i: int| 0 <= i < zeroed.len() implies ZERO <= #[trigger] zeroed[i] <= NINE by {
            if i > 0 {
                assert(zeroed[i] == digits[i - 1]);
            }
        }
        lemma_leading_zero(digits);
    }
}

proof fn lemma_leading_zero(digits: Seq<u8>)
    ensures
        digits_value(seq![48u8] + digits) == digits_value(digits),
    decreases digits.len(),
{
    let zeroed = seq![48u8] + digits;
    if digits.len() > 0 {
        lemma_leading_zero(digits.drop_last());
        assert(zeroed.drop_last() =~= seq![48u8] + digits.drop_last());
        assert(zeroed.last() == digits.last());
    } else {
        assert(zeroed.drop_last() =~= Seq::<u8>::empty());
        assert(digits_value(zeroed.drop_last()) == 0);
    }
}

} // verus!
