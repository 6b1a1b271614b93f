//! Relative ages: a duration in seconds, told as a count of the largest unit
//! of time that the duration exceeds.

use crate::text::{decimal, decimal_string};
use vstd::prelude::*;
use vstd::string::StringExecFns;

verus! {

/// The units in which an age is told, the largest first.
#[derive(Clone, Copy, Debug, PartialEq, Eq, Structural)]
pub enum AgeBucket {
    Year,
    Month,
    Week,
    Day,
    Hour,
    Minute,
    Second,
}

impl AgeBucket {
    /// The length of the unit in seconds. A year is 365 days, a month the
    /// twelfth part of a year.
    pub open spec fn seconds(self) -> nat {
        match self {
            AgeBucket::Year => 31_536_000,
            AgeBucket::Month => 2_628_000,
            AgeBucket::Week => 604_800,
            AgeBucket::Day => 86_400,
            AgeBucket::Hour => 3_600,
            AgeBucket::Minute => 60,
            AgeBucket::Second => 1,
        }
    }

    /// The unit's name, in the singular.
    pub open spec fn word(self) -> Seq<char> {
        match self {
            AgeBucket::Year => "year"@,
            AgeBucket::Month => "month"@,
            AgeBucket::Week => "week"@,
            AgeBucket::Day => "day"@,
            AgeBucket::Hour => "hour"@,
            AgeBucket::Minute => "minute"@,
            AgeBucket::Second => "second"@,
        }
    }

    /// The length of the unit in seconds.
    pub fn length(self) -> (r: u64)
        ensures
            r == self.seconds(),
    {
        match self {
            AgeBucket::Year => 31_536_000,
            AgeBucket::Month => 2_628_000,
            AgeBucket::Week => 604_800,
            AgeBucket::Day => 86_400,
            AgeBucket::Hour => 3_600,
            AgeBucket::Minute => 60,
            AgeBucket::Second => 1,
        }
    }

    /// The unit's name, in the singular.
    pub fn name(self) -> (r: &'static str)
        ensures
            r@ == self.word(),
    {
        match self {
            AgeBucket::Year => "year",
            AgeBucket::Month => "month",
            AgeBucket::Week => "week",
            AgeBucket::Day => "day",
            AgeBucket::Hour => "hour",
            AgeBucket::Minute => "minute",
            AgeBucket::Second => "second",
        }
    }

    /// The unit for a duration of `magnitude` seconds.
    pub fn select(magnitude: u64) -> (r: AgeBucket)
        ensures
            r == bucket_of(magnitude as nat),
    {
        if magnitude > 31_536_000 {
            AgeBucket::Year
        } else if magnitude > 2_628_000 {
            AgeBucket::Month
        } else if magnitude > 604_800 {
            AgeBucket::Week
        } else if magnitude > 86_400 {
            AgeBucket::Day
        } else if magnitude > 3_600 {
            AgeBucket::Hour
        } else if magnitude > 60 {
            AgeBucket::Minute
        } else {
            AgeBucket::Second
        }
    }
}

/// The unit in which a duration of `magnitude` seconds is told: the largest
/// unit that is strictly shorter than the duration, and `Second` where there
/// is none.
pub open spec fn bucket_of(magnitude: nat) -> AgeBucket {
    if magnitude > AgeBucket::Year.seconds() {
        AgeBucket::Year
    } else if magnitude > AgeBucket::Month.seconds() {
        AgeBucket::Month
    } else if magnitude > AgeBucket::Week.seconds() {
        AgeBucket::Week
    } else if magnitude > AgeBucket::Day.seconds() {
        AgeBucket::Day
    } else if magnitude > AgeBucket::Hour.seconds() {
        AgeBucket::Hour
    } else if magnitude > AgeBucket::Minute.seconds() {
        AgeBucket::Minute
    } else {
        AgeBucket::Second
    }
}

/// The absolute value of a duration.
pub open spec fn magnitude_of(seconds: int) -> nat {
    if seconds < 0 {
        (-seconds) as nat
    } else {
        seconds as nat
    }
}

/// A count and a unit's name as a phrase: the decimal count, a space, and
/// the name, with an `s` added unless the count is one.
pub open spec fn counted(count: nat, word: Seq<char>) -> Seq<char> {
    decimal(count) + " "@ + word + if count == 1 {
        Seq::<char>::empty()
    } else {
        "s"@
    }
}

/// The age label of a duration of `magnitude` seconds: how many whole units
/// of its bucket the duration holds.
pub open spec fn label_of_magnitude(magnitude: nat) -> Seq<char> {
    let bucket = bucket_of(magnitude);
    counted(magnitude / bucket.seconds(), bucket.word())
}

/// The age label of a duration, which may be negative.
pub open spec fn age_label(seconds: int) -> Seq<char> {
    label_of_magnitude(magnitude_of(seconds))
}

/// A duration and its negation have the same age label.
pub proof fn lemma_age_label_ignores_sign(seconds: int)
    ensures
        age_label(seconds) == age_label(-seconds),
{
    assert(magnitude_of(seconds) == magnitude_of(-seconds));
}

/// Every duration has exactly one bucket: no unit longer than the bucket is
/// exceeded by the duration, and the bucket itself is, unless it is `Second`.
pub proof fn lemma_bucket_is_largest_exceeded(magnitude: nat, other: AgeBucket)
    ensures
        bucket_of(magnitude) != AgeBucket::Second ==> magnitude > bucket_of(magnitude).seconds(),
        magnitude > other.seconds() ==> other.seconds() <= bucket_of(magnitude).seconds(),
{
}

/// Tells how many whole units of `unit` seconds there are in `n` seconds.
pub fn format_count(n: u64, unit: u64, word: &str) -> (r: String)
    requires
        unit > 0,
    ensures
        r@ == counted((n / unit) as nat, word@),
{
    let count = n / unit;
    let mut text = decimal_string(count);
    text.append(" ");
    text.append(word);
    if count != 1 {
        text.append("s");
    }
    proof {
        if count == 1 {
            assert(text@ =~= counted(count as nat, word@));
        } else {
            assert(text@ =~= counted(count as nat, word@));
        }
    }
    text
}

/// Tells a duration of `magnitude` seconds as an age.
pub fn format_magnitude(magnitude: u64) -> (r: String)
    ensures
        r@ == label_of_magnitude(magnitude as nat),
{
    let bucket = AgeBucket::select(magnitude);
    format_count(magnitude, bucket.length(), bucket.name())
}

/// The absolute value of a number of seconds.
pub fn magnitude(seconds: i64) -> (r: u64)
    ensures
        r == magnitude_of(seconds as int),
{
    if seconds >= 0 {
        seconds as u64
    } else {
        ((-(seconds + 1)) as u64) + 1
    }
}

/// Tells a duration as an age: `"3 days"`, `"1 minute"`, `"0 seconds"`.
/// The sign of the duration does not matter.
pub fn format_age(seconds: i64) -> (r: String)
    ensures
        r@ == age_label(seconds as int),
{
    format_magnitude(magnitude(seconds))
}

} // verus!
