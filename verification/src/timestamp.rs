//! Times of day as a timetable feed writes them: `H:MM:SS` or `HH:MM:SS`, the hours not
//! limited to a day.

use std::str::FromStr;
use vstd::prelude::*;
use vstd::string::StringExecFns;
use vstd::utf8::{encode_utf8, is_ascii_chars, is_ascii_chars_encode_utf8};

use crate::text::{decimal, digit_char, push_decimal, push_two_digits, two_digits};

verus! {

/// A time of the service day in seconds past midnight.
#[derive(Debug, Copy, Clone, PartialEq, Eq, Structural)]
pub struct Time(pub u64);

/// A field of a time stamp.
#[derive(Debug, Copy, Clone, PartialEq, Eq, Structural)]
pub enum TimestampPart {
    Hours,
    Minutes,
    Seconds,
}

/// A field of a time stamp that has a largest value.
#[derive(Debug, Copy, Clone, PartialEq, Eq, Structural)]
pub enum TimeFraction {
    Minutes,
    Seconds,
}

/// Why a field is no number.
#[derive(Debug, Copy, Clone, PartialEq, Eq, Structural)]
pub enum IntErrorKind {
    /// The field is empty.
    Empty,
    /// The field holds something else than decimal digits.
    InvalidDigit,
    /// The number does not fit 64 bits.
    PosOverflow,
}

/// Why a text is no time stamp.
#[derive(Debug, Copy, Clone, PartialEq, Eq, Structural)]
pub enum ParseTimeError {
    /// The text is not 7 or 8 bytes long. The value is its length.
    InvalidLength(usize),
    /// The minutes or the seconds are not 2 bytes long. The value is their length.
    InvalidPartLength(TimeFraction, usize),
    /// The text ends before the field.
    InvalidFormat(TimestampPart),
    /// The field is no number.
    ParseIntError(TimestampPart, IntErrorKind),
    /// The minutes or the seconds are greater than 59. The value is what they are.
    ValueOutOfRange(TimeFraction, u64),
}

/// The byte of a colon.
pub open spec fn colon() -> u8 {
    58
}

/// The place of the first colon at or after `from`; the length of `bytes` where none follows.
pub open spec fn colon_from(bytes: Seq<u8>, from: int) -> int
    decreases bytes.len() - from,
{
    if from < 0 || from >= bytes.len() {
        bytes.len() as int
    } else if bytes[from] == colon() {
        from
    } else {
        colon_from(bytes, from + 1)
    }
}

/// Every byte of the field is a decimal digit.
pub open spec fn all_digits(field: Seq<u8>) -> bool {
    forall|i: int| 0 <= i < field.len() ==> 48 <= #[trigger] field[i] <= 57
}

/// The number that decimal digits write.
pub open spec fn number(field: Seq<u8>) -> nat
    decreases field.len(),
{
    if field.len() == 0 {
        0
    } else {
        (number(field.drop_last()) * 10 + (field.last() - 48)) as nat
    }
}

/// The number that a field writes, or why it writes none.
pub open spec fn field_value(field: Seq<u8>) -> Result<u64, IntErrorKind> {
    if field.len() == 0 {
        Err(IntErrorKind::Empty)
    } else if !all_digits(field) {
        Err(IntErrorKind::InvalidDigit)
    } else if number(field) > u64::MAX {
        Err(IntErrorKind::PosOverflow)
    } else {
        Ok(number(field) as u64)
    }
}

/// The minutes or seconds that a field writes, or why it writes none.
pub open spec fn fraction_value(field: Seq<u8>, fraction: TimeFraction, part: TimestampPart)
    -> Result<u64, ParseTimeError> {
    if field.len() != 2 {
        Err(ParseTimeError::InvalidPartLength(fraction, field.len() as usize))
    } else {
        match field_value(field) {
            Err(kind) => Err(ParseTimeError::ParseIntError(part, kind)),
            Ok(value) => if value > 59 {
                Err(ParseTimeError::ValueOutOfRange(fraction, value))
            } else {
                Ok(value)
            },
        }
    }
}

/// The seconds past midnight that the bytes of a time stamp write, or why they write none.
///
/// The hours run to the first colon, the minutes from there to the second, and the seconds
/// from there to the end. The checks are made in this order, and the first that fails
/// gives the error: the length of the whole, the hours, that minutes follow, the minutes,
/// that seconds follow, the seconds.
pub open spec fn seconds_of(bytes: Seq<u8>) -> Result<u64, ParseTimeError> {
    if bytes.len() != 7 && bytes.len() != 8 {
        Err(ParseTimeError::InvalidLength(bytes.len() as usize))
    } else {
        let first = colon_from(bytes, 0);
        match field_value(bytes.subrange(0, first)) {
            Err(kind) => Err(ParseTimeError::ParseIntError(TimestampPart::Hours, kind)),
            Ok(hours) => if first == bytes.len() {
                Err(ParseTimeError::InvalidFormat(TimestampPart::Minutes))
            } else {
                let second = colon_from(bytes, first + 1);
                match fraction_value(
                    bytes.subrange(first + 1, second),
                    TimeFraction::Minutes,
                    TimestampPart::Minutes,
                ) {
                    Err(error) => Err(error),
                    Ok(minutes) => if second == bytes.len() {
                        Err(ParseTimeError::InvalidFormat(TimestampPart::Seconds))
                    } else {
                        match fraction_value(
                            bytes.subrange(second + 1, bytes.len() as int),
                            TimeFraction::Seconds,
                            TimestampPart::Seconds,
                        ) {
                            Err(error) => Err(error),
                            Ok(seconds) => Ok((hours * 3600 + minutes * 60 + seconds) as u64),
                        }
                    },
                }
            },
        }
    }
}

/// A number of `n` digits is below ten to the power of `n`, shown here for up to eight.
pub proof fn lemma_number_grows(field: Seq<u8>)
    requires
        all_digits(field),
        field.len() <= 8,
    ensures
        field.len() <= 1 ==> number(field) < 10,
        field.len() <= 2 ==> number(field) < 100,
        field.len() <= 3 ==> number(field) < 1_000,
        field.len() <= 4 ==> number(field) < 10_000,
        field.len() <= 5 ==> number(field) < 100_000,
        field.len() <= 6 ==> number(field) < 1_000_000,
        field.len() <= 7 ==> number(field) < 10_000_000,
        field.len() <= 8 ==> number(field) < 100_000_000,
    decreases field.len(),
{
    if field.len() > 0 {
        lemma_number_grows(field.drop_last());
    }
}

/// The place of the first colon at or after `from`.
pub fn find_colon(bytes: &[u8], from: usize) -> (place: usize)
    requires
        from <= bytes@.len(),
    ensures
        place == colon_from(bytes@, from as int),
        from <= place <= bytes@.len(),
{
    let mut place = from;
    while place < bytes.len() && bytes[place] != 58
        invariant
            from <= place <= bytes@.len(),
            colon_from(bytes@, from as int) == colon_from(bytes@, place as int),
        decreases bytes@.len() - place,
    {
        place += 1;
    }
    place
}

/// Reads the decimal number that the bytes from `from` up to `to` write.
pub fn parse_field(bytes: &[u8], from: usize, to: usize) -> (value: Result<u64, IntErrorKind>)
    requires
        from <= to <= bytes@.len(),
    ensures
        value == field_value(bytes@.subrange(from as int, to as int)),
{
    let ghost field = bytes@.subrange(from as int, to as int);
    if from == to {
        return Err(IntErrorKind::Empty);
    }
    let mut i = from;
    while i < to
        invariant
            from <= i <= to <= bytes@.len(),
            field == bytes@.subrange(from as int, to as int),
            forall|j: int| 0 <= j < i - from ==> 48 <= #[trigger] field[j] <= 57,
        decreases to - i,
    {
        if bytes[i] < 48 || bytes[i] > 57 {
            assert(field[i - from] == bytes@[i as int]);
            return Err(IntErrorKind::InvalidDigit);
        }
        assert(field[i - from] == bytes@[i as int]);
        i += 1;
    }
    let mut value: u64 = 0;
    let mut i = from;
    assert(field.take(0) =~= Seq::empty());
    while i < to
        invariant
            from <= i <= to <= bytes@.len(),
            field == bytes@.subrange(from as int, to as int),
            all_digits(field),
            value == number(field.take(i - from)),
        decreases to - i,
    {
        assert(field[i - from] == bytes@[i as int]);
        let digit = (bytes[i] - 48) as u64;
        proof {
            assert(field.take(i - from + 1).drop_last() =~= field.take(i - from));
            assert(field.take(i - from + 1).last() == field[i - from]);
            assert(field.take(to - from) =~= field);
            lemma_number_prefix(field, i - from + 1);
        }
        let shifted = match value.checked_mul(10) {
            Some(shifted) => shifted,
            None => {
                return Err(IntErrorKind::PosOverflow);
            },
        };
        value = match shifted.checked_add(digit) {
            Some(sum) => sum,
            None => {
                return Err(IntErrorKind::PosOverflow);
            },
        };
        i += 1;
    }
    assert(field.take(to - from) =~= field);
    Ok(value)
}

/// The number of the first digits is no greater than the number of all.
pub proof fn lemma_number_prefix(field: Seq<u8>, n: int)
    requires
        all_digits(field),
        0 <= n <= field.len(),
    ensures
        number(field.take(n)) <= number(field),
    decreases field.len() - n,
{
    if n < field.len() {
        lemma_number_prefix(field, n + 1);
        assert(field.take(n + 1).drop_last() =~= field.take(n));
    } else {
        assert(field.take(n) =~= field);
    }
}

/// Reads the minutes or seconds that the bytes from `from` up to `to` write.
pub fn parse_fraction(
    bytes: &[u8],
    from: usize,
    to: usize,
    fraction: TimeFraction,
    part: TimestampPart,
) -> (value: Result<u64, ParseTimeError>)
    requires
        from <= to <= bytes@.len(),
    ensures
        value == fraction_value(bytes@.subrange(from as int, to as int), fraction, part),
{
    let length = to - from;
    if length != 2 {
        return Err(ParseTimeError::InvalidPartLength(fraction, length));
    }
    match parse_field(bytes, from, to) {
        Err(kind) => Err(ParseTimeError::ParseIntError(part, kind)),
        Ok(value) => if value > 59 {
            Err(ParseTimeError::ValueOutOfRange(fraction, value))
        } else {
            Ok(value)
        },
    }
}

impl Time {
    /// The time `value` seconds past midnight.
    pub fn new(value: u64) -> (time: Time)
        ensures
            time.0 == value,
    {
        Time(value)
    }

    /// The seconds past midnight.
    pub fn total_seconds(self) -> (seconds: u64)
        ensures
            seconds == self.0,
    {
        self.0
    }

    /// The text of the time: hours, minutes and seconds as plain decimal numbers with
    /// colons between them.
    pub open spec fn text(self) -> Seq<char> {
        decimal((self.0 / 3600) as nat) + ":"@ + decimal(((self.0 / 60) % 60) as nat) + ":"@
            + decimal((self.0 % 60) as nat)
    }

    /// The time stamp of the time: `H:MM:SS`, the hours as they are, the minutes and
    /// seconds with two digits each.
    pub open spec fn stamp(self) -> Seq<char> {
        decimal((self.0 / 3600) as nat) + ":"@ + two_digits(((self.0 / 60) % 60) as nat) + ":"@
            + two_digits((self.0 % 60) as nat)
    }

    /// Writes the time out as a time stamp.
    pub fn to_stamp(&self) -> (text: String)
        ensures
            text@ == self.stamp(),
    {
        let mut text = String::new();
        push_decimal(&mut text, self.0 / 3600);
        text.append(":");
        push_two_digits(&mut text, (self.0 / 60) % 60);
        text.append(":");
        push_two_digits(&mut text, self.0 % 60);
        assert(text@ =~= self.stamp());
        text
    }

    /// Writes the time out as plain numbers, the hours not limited to a day.
    pub fn to_text(&self) -> (text: String)
        ensures
            text@ == self.text(),
    {
        let mut text = String::new();
        push_decimal(&mut text, self.0 / 3600);
        text.append(":");
        push_decimal(&mut text, (self.0 / 60) % 60);
        text.append(":");
        push_decimal(&mut text, self.0 % 60);
        assert(text@ =~= self.text());
        text
    }

    /// Reads a time stamp of the form `H:MM:SS` or `HH:MM:SS`.
    ///
    /// The hours are one or two decimal digits of any value, the minutes and the seconds
    /// two digits each that write at most 59.
    pub fn parse(text: &str) -> (time: Result<Time, ParseTimeError>)
        ensures
            match time {
                Ok(time) => seconds_of(encode_utf8(text@)) == Ok::<u64, ParseTimeError>(time.0),
                Err(error) => seconds_of(encode_utf8(text@)) == Err::<u64, ParseTimeError>(error),
            },
    {
        let bytes = text.as_bytes();
        let length = bytes.len();
        if length != 7 && length != 8 {
            return Err(ParseTimeError::InvalidLength(length));
        }
        let first = find_colon(bytes, 0);
        let hours = match parse_field(bytes, 0, first) {
            Ok(hours) => hours,
            Err(kind) => {
                return Err(ParseTimeError::ParseIntError(TimestampPart::Hours, kind));
            },
        };
        if first == length {
            return Err(ParseTimeError::InvalidFormat(TimestampPart::Minutes));
        }
        let second = find_colon(bytes, first + 1);
        let minutes = match parse_fraction(
            bytes,
            first + 1,
            second,
            TimeFraction::Minutes,
            TimestampPart::Minutes,
        ) {
            Ok(minutes) => minutes,
            Err(error) => {
                return Err(error);
            },
        };
        if second == length {
            return Err(ParseTimeError::InvalidFormat(TimestampPart::Seconds));
        }
        let seconds = match parse_fraction(
            bytes,
            second + 1,
            length,
            TimeFraction::Seconds,
            TimestampPart::Seconds,
        ) {
            Ok(seconds) => seconds,
            Err(error) => {
                return Err(error);
            },
        };
        proof {
            lemma_number_grows(bytes@.subrange(0, first as int));
        }
        Ok(Time(hours * 3600 + minutes * 60 + seconds))
    }
}

impl FromStr for Time {
    type Err = ParseTimeError;

    /// Reads a time stamp as `Time::parse` does.
    fn from_str(string: &str) -> (time: Result<Time, ParseTimeError>)
        ensures
            match time {
                Ok(time) => seconds_of(encode_utf8(string@)) == Ok::<u64, ParseTimeError>(time.0),
                Err(error) => seconds_of(encode_utf8(string@)) == Err::<u64, ParseTimeError>(
                    error,
                ),
            },
    {
        Time::parse(string)
    }
}

/// The byte of a decimal digit.
pub proof fn lemma_digit_byte(d: nat)
    requires
        d < 10,
    ensures
        digit_char(d) as u8 == 48 + d,
        '\0' <= digit_char(d) <= '\u{7f}',
{
}

/// The digits of a number below a hundred, padded to two.
pub proof fn lemma_two_digits(n: nat)
    requires
        n < 100,
    ensures
        two_digits(n) == seq![digit_char(n / 10), digit_char(n % 10)],
        n >= 10 ==> decimal(n) == seq![digit_char(n / 10), digit_char(n % 10)],
        n < 10 ==> decimal(n) == seq![digit_char(n)],
{
    reveal_with_fuel(decimal, 2);
    if n < 10 {
        assert(two_digits(n) =~= seq![digit_char(n / 10), digit_char(n % 10)]);
    } else {
        assert(decimal(n) =~= seq![digit_char(n / 10), digit_char(n % 10)]);
    }
}

/// The number that two digit bytes write.
pub proof fn lemma_number_of_two(a: nat, b: nat)
    requires
        a < 10,
        b < 10,
    ensures
        number(seq![(48 + a) as u8, (48 + b) as u8]) == 10 * a + b,
        number(seq![(48 + b) as u8]) == b,
        all_digits(seq![(48 + a) as u8, (48 + b) as u8]),
        all_digits(seq![(48 + b) as u8]),
{
    reveal_with_fuel(number, 3);
    let two = seq![(48 + a) as u8, (48 + b) as u8];
    let one = seq![(48 + b) as u8];
    assert(two.drop_last() =~= seq![(48 + a) as u8]);
    assert(two.drop_last().drop_last() =~= Seq::<u8>::empty());
    assert(one.drop_last() =~= Seq::<u8>::empty());
}

/// A time stamp reads back as the time that it was written from: for every time below a
/// hundred hours, `parse` of `to_stamp` gives the time.
pub proof fn lemma_stamp_reads_back(seconds: u64)
    requires
        seconds < 360_000,
    ensures
        seconds_of(encode_utf8(Time(seconds).stamp())) == Ok::<u64, ParseTimeError>(seconds),
{
    let hours = (seconds / 3600) as nat;
    let minutes = ((seconds / 60) % 60) as nat;
    let rest = (seconds % 60) as nat;
    assert(seconds == hours * 3600 + minutes * 60 + rest);
    reveal_strlit(":");
    lemma_two_digits(hours);
    lemma_two_digits(minutes);
    lemma_two_digits(rest);
    lemma_digit_byte(hours / 10);
    lemma_digit_byte(hours % 10);
    lemma_digit_byte(minutes / 10);
    lemma_digit_byte(minutes % 10);
    lemma_digit_byte(rest / 10);
    lemma_digit_byte(rest % 10);
    lemma_number_of_two(hours / 10, hours % 10);
    lemma_number_of_two(minutes / 10, minutes % 10);
    lemma_number_of_two(rest / 10, rest % 10);
    let text = Time(seconds).stamp();
    let tail = seq![
        ':',
        digit_char(minutes / 10),
        digit_char(minutes % 10),
        ':',
        digit_char(rest / 10),
        digit_char(rest % 10),
    ];
    assert(text =~= decimal(hours) + tail);
    assert(is_ascii_chars(text));
    is_ascii_chars_encode_utf8(text);
    let bytes = encode_utf8(text);
    reveal_with_fuel(colon_from, 4);
    let width = decimal(hours).len() as int;
    assert forall|i: int| 0 <= i < bytes.len() implies bytes[i] == text[i] as u8 by {}
    assert(bytes[width] == 58);
    assert(bytes[width + 3] == 58);
    assert(colon_from(bytes, 0) == width);
    assert(colon_from(bytes, width + 1) == width + 3);
    let minute_bytes = seq![(48 + minutes / 10) as u8, (48 + minutes % 10) as u8];
    let rest_bytes = seq![(48 + rest / 10) as u8, (48 + rest % 10) as u8];
    assert(bytes.subrange(width + 1, width + 3) =~= minute_bytes);
    assert(bytes.subrange(width + 4, bytes.len() as int) =~= rest_bytes);
    if hours < 10 {
        assert(bytes.subrange(0, width) =~= seq![(48 + hours % 10) as u8]);
    } else {
        assert(bytes.subrange(0, width) =~= seq![
            (48 + hours / 10) as u8,
            (48 + hours % 10) as u8,
        ]);
    }
}

} // verus!
