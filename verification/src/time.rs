//! Time stamps of the routing engine: seconds past midnight, or never.

use std::cmp::Ordering;
use vstd::prelude::*;
use vstd::std_specs::cmp::PartialOrdSpecImpl;
use vstd::std_specs::convert::FromSpecImpl;
use vstd::std_specs::ops::AddSpecImpl;
use vstd::string::StringExecFns;

use crate::text::{decimal, push_decimal, push_two_digits, two_digits};

verus! {

/// A time stamp of the service day.
///
/// A finite value counts the seconds past midnight and may go beyond 24 hours where a trip
/// runs into the next day. `Infinite` is later than every finite time.
#[derive(Copy, Clone, Debug, PartialEq, Eq, Structural, Ord)]
pub enum Time {
    Finite(u64),
    Infinite,
}

impl Time {
    /// The place of a time on the time line: its seconds, or one past the largest second count
    /// for `Infinite`. Two times compare as their ranks do.
    pub open spec fn rank(self) -> int {
        match self {
            Time::Finite(seconds) => seconds as int,
            Time::Infinite => u64::MAX as int + 1,
        }
    }

    /// `self` is strictly earlier than `other`.
    pub open spec fn before(self, other: Time) -> bool {
        self.rank() < other.rank()
    }

    /// `self` is no later than `other`.
    pub open spec fn at_most(self, other: Time) -> bool {
        self.rank() <= other.rank()
    }

    /// The sum of two times. It is `Infinite` where either is, and where the seconds of two
    /// finite times no longer fit the integer width.
    pub open spec fn plus(self, other: Time) -> Time {
        match (self, other) {
            (Time::Finite(a), Time::Finite(b)) => if a + b <= u64::MAX {
                Time::Finite((a + b) as u64)
            } else {
                Time::Infinite
            },
            _ => Time::Infinite,
        }
    }

    /// The earlier of two times.
    pub open spec fn earlier(self, other: Time) -> Time {
        if self.rank() <= other.rank() {
            self
        } else {
            other
        }
    }

    /// The text of a time: `Time H:M:S` with plain decimal numbers, or `Time Infinite`.
    pub open spec fn text(self) -> Seq<char> {
        match self {
            Time::Infinite => "Time Infinite"@,
            Time::Finite(seconds) => "Time "@ + decimal((seconds / 3600) as nat) + ":"@ + decimal(
                ((seconds / 60) % 60) as nat,
            ) + ":"@ + decimal((seconds % 60) as nat),
        }
    }

    /// The time as a clock shows it: `H:MM:SS`, the hours as they are and not limited to a
    /// day, the minutes and seconds with two digits each; `Infinite` for no time at all.
    pub open spec fn clock(self) -> Seq<char> {
        match self {
            Time::Infinite => "Infinite"@,
            Time::Finite(seconds) => decimal((seconds / 3600) as nat) + ":"@ + two_digits(
                ((seconds / 60) % 60) as nat,
            ) + ":"@ + two_digits((seconds % 60) as nat),
        }
    }

    /// Writes the time out as a clock shows it.
    pub fn to_clock(&self) -> (text: String)
        ensures
            text@ == self.clock(),
    {
        match *self {
            Time::Infinite => String::from_str("Infinite"),
            Time::Finite(seconds) => {
                let mut text = String::new();
                push_decimal(&mut text, seconds / 3600);
                text.append(":");
                push_two_digits(&mut text, (seconds / 60) % 60);
                text.append(":");
                push_two_digits(&mut text, seconds % 60);
                assert(text@ =~= self.clock());
                text
            },
        }
    }

    /// The earlier of two times.
    pub fn min(self, other: Time) -> (earlier: Time)
        ensures
            earlier == self.earlier(other),
    {
        if self <= other {
            self
        } else {
            other
        }
    }

    /// Writes the time out with its name in front: hours, minutes and seconds as plain
    /// numbers, the hours not limited to a day.
    pub fn to_text(&self) -> (text: String)
        ensures
            text@ == self.text(),
    {
        match *self {
            Time::Infinite => String::from_str("Time Infinite"),
            Time::Finite(seconds) => {
                let mut text = String::from_str("Time ");
                push_decimal(&mut text, seconds / 3600);
                text.append(":");
                push_decimal(&mut text, (seconds / 60) % 60);
                text.append(":");
                push_decimal(&mut text, seconds % 60);
                text
            },
        }
    }
}

impl PartialOrd for Time {
    fn partial_cmp(&self, other: &Time) -> (order: Option<Ordering>) {
        match (*self, *other) {
            (Time::Infinite, Time::Infinite) => Some(Ordering::Equal),
            (Time::Infinite, Time::Finite(_)) => Some(Ordering::Greater),
            (Time::Finite(_), Time::Infinite) => Some(Ordering::Less),
            (Time::Finite(a), Time::Finite(b)) => if a < b {
                Some(Ordering::Less)
            } else if a == b {
                Some(Ordering::Equal)
            } else {
                Some(Ordering::Greater)
            },
        }
    }
}

impl PartialOrdSpecImpl for Time {
    open spec fn obeys_partial_cmp_spec() -> bool {
        true
    }

    open spec fn partial_cmp_spec(&self, other: &Time) -> Option<Ordering> {
        if self.rank() < other.rank() {
            Some(Ordering::Less)
        } else if self.rank() == other.rank() {
            Some(Ordering::Equal)
        } else {
            Some(Ordering::Greater)
        }
    }
}

impl core::ops::Add for Time {
    type Output = Time;

    fn add(self, other: Time) -> (sum: Time) {
        match (self, other) {
            (Time::Finite(a), Time::Finite(b)) => match a.checked_add(b) {
                Some(seconds) => Time::Finite(seconds),
                None => Time::Infinite,
            },
            _ => Time::Infinite,
        }
    }
}

impl AddSpecImpl for Time {
    open spec fn obeys_add_spec() -> bool {
        true
    }

    open spec fn add_req(self, other: Time) -> bool {
        true
    }

    open spec fn add_spec(self, other: Time) -> Time {
        self.plus(other)
    }
}

impl From<u64> for Time {
    fn from(seconds: u64) -> (time: Time) {
        Time::Finite(seconds)
    }
}

impl FromSpecImpl<u64> for Time {
    open spec fn obeys_from_spec() -> bool {
        true
    }

    open spec fn from_spec(seconds: u64) -> Time {
        Time::Finite(seconds)
    }
}

} // verus!
