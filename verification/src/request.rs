//! The date and time of a search request, as a form field of kind `datetime-local` gives it.

use vstd::prelude::*;
use vstd::string::StringExecFns;

use crate::text::{decimal, push_decimal, push_two_digits, two_digits};

verus! {

/// A date and a time of day without a time zone.
#[derive(Debug, Copy, Clone, PartialEq, Eq, Structural)]
pub struct DateTimeLocal {
    pub year: u16,
    pub month: u8,
    pub day: u8,
    pub hour: u8,
    pub minute: u8,
    pub second: u8,
}

/// Why a date and time cannot be written out.
#[derive(Debug, Copy, Clone, PartialEq, Eq, Structural)]
pub enum FormatError {
    /// A field is outside the calendar or the clock.
    InvalidComponent,
}

/// The year has a 29th of February.
pub open spec fn is_leap_year(year: int) -> bool {
    year % 4 == 0 && (year % 100 != 0 || year % 400 == 0)
}

/// The number of days of a month; zero where the month is none.
pub open spec fn days_in_month(year: int, month: int) -> int {
    if month == 2 {
        if is_leap_year(year) {
            29
        } else {
            28
        }
    } else if month == 4 || month == 6 || month == 9 || month == 11 {
        30
    } else if 1 <= month <= 12 {
        31
    } else {
        0
    }
}

/// The decimal numeral of `n`, padded with zeros to four digits.
pub open spec fn four_digits(n: nat) -> Seq<char> {
    if n < 10 {
        seq!['0', '0', '0'].add(decimal(n))
    } else if n < 100 {
        seq!['0', '0'].add(decimal(n))
    } else if n < 1000 {
        seq!['0'].add(decimal(n))
    } else {
        decimal(n)
    }
}

/// Tells the number of days of a month; zero where the month is none.
pub fn month_length(year: u16, month: u8) -> (days: u8)
    ensures
        days == days_in_month(year as int, month as int),
{
    if month == 2 {
        if year % 4 == 0 && (year % 100 != 0 || year % 400 == 0) {
            29
        } else {
            28
        }
    } else if month == 4 || month == 6 || month == 9 || month == 11 {
        30
    } else if 1 <= month && month <= 12 {
        31
    } else {
        0
    }
}

impl DateTimeLocal {
    /// The fields name a day of the calendar in the years up to 9999 and a second of the day.
    pub open spec fn valid(self) -> bool {
        &&& self.year <= 9999
        &&& 1 <= self.day <= days_in_month(self.year as int, self.month as int)
        &&& self.hour <= 23
        &&& self.minute <= 59
        &&& self.second <= 59
    }

    /// The text `YYYY-MM-DDTHH:MM:SS`, every field padded with zeros to its width.
    pub open spec fn text(self) -> Seq<char> {
        four_digits(self.year as nat) + "-"@ + two_digits(self.month as nat) + "-"@ + two_digits(
            self.day as nat,
        ) + "T"@ + two_digits(self.hour as nat) + ":"@ + two_digits(self.minute as nat) + ":"@
            + two_digits(self.second as nat)
    }

    /// Tells whether the fields name a day of the calendar and a second of the day.
    pub fn is_valid(&self) -> (valid: bool)
        ensures
            valid == self.valid(),
    {
        self.year <= 9999 && 1 <= self.day && self.day <= month_length(self.year, self.month)
            && self.hour <= 23 && self.minute <= 59 && self.second <= 59
    }

    /// Writes the date and time out as a form field takes it.
    pub fn format(&self) -> (text: Result<String, FormatError>)
        ensures
            match text {
                Ok(text) => self.valid() && text@ == self.text(),
                Err(_) => !self.valid(),
            },
    {
        if !self.is_valid() {
            return Err(FormatError::InvalidComponent);
        }
        let mut text = String::new();
        if self.year < 10 {
            text.append("000");
        } else if self.year < 100 {
            text.append("00");
        } else if self.year < 1000 {
            text.append("0");
        }
        proof {
            reveal_strlit("000");
            reveal_strlit("00");
            reveal_strlit("0");
        }
        push_decimal(&mut text, self.year as u64);
        assert(text@ =~= four_digits(self.year as nat));
        text.append("-");
        push_two_digits(&mut text, self.month as u64);
        text.append("-");
        push_two_digits(&mut text, self.day as u64);
        text.append("T");
        push_two_digits(&mut text, self.hour as u64);
        text.append(":");
        push_two_digits(&mut text, self.minute as u64);
        text.append(":");
        push_two_digits(&mut text, self.second as u64);
        assert(text@ =~= self.text());
        Ok(text)
    }

    /// The seconds of the time of day past midnight.
    pub fn to_seconds(&self) -> (seconds: u64)
        ensures
            seconds == self.hour * 3600 + self.minute * 60 + self.second,
    {
        self.hour as u64 * 60 * 60 + self.minute as u64 * 60 + self.second as u64
    }
}

/// The text of the departure for the search form, or nothing where it cannot be written.
pub fn try_format(departure: &DateTimeLocal) -> (text: Option<String>)
    ensures
        match text {
            Some(text) => departure.valid() && text@ == departure.text(),
            None => !departure.valid(),
        },
{
    match departure.format() {
        Ok(departure) => Some(departure),
        Err(_) => None,
    }
}

} // verus!
