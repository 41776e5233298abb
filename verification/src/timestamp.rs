//! Moments in time, to the nanosecond, as far as the calendar reaches.

use chrono::{DateTime, SecondsFormat, TimeDelta, Utc};

use vstd::prelude::*;

verus! {

/// The first second of the calendar, counted from the beginning of 1970 in UTC.
pub const MIN_SECONDS: i64 = -8_334_601_228_800;

/// The last second of the calendar, counted from the beginning of 1970 in UTC.
pub const MAX_SECONDS: i64 = 8_210_266_876_799;

/// Whether the calendar has the moment `nanoseconds` after `seconds`. The last second of a minute
/// may be followed by a leap second.
pub open spec fn is_moment(seconds: i64, nanoseconds: u32) -> bool {
    &&& MIN_SECONDS <= seconds <= MAX_SECONDS
    &&& nanoseconds < 1_000_000_000 || (nanoseconds < 2_000_000_000 && seconds % 60 == 59)
}

/// What `chrono::DateTime::to_rfc3339_opts` writes for a moment in UTC, with as many digits of
/// the second as it needs and `Z` for the zone.
pub uninterp spec fn rfc3339_text(seconds: i64, nanoseconds: u32) -> Seq<char>;

/// Calls `chrono::DateTime::to_rfc3339_opts` on the moment.
///
/// Claimed: the text is a function of the moment. `chrono::DateTime::from_timestamp` has a moment
/// for the numbers that are let in.
#[verifier::external_body]
fn rfc3339(seconds: i64, nanoseconds: u32) -> (text: String)
    requires
        is_moment(seconds, nanoseconds),
    ensures
        text@ == rfc3339_text(seconds, nanoseconds),
{
    let moment: DateTime<Utc> = DateTime::from_timestamp(seconds, nanoseconds).unwrap();
    moment.to_rfc3339_opts(SecondsFormat::AutoSi, true)
}

/// The moment `days` days before another one. From within a leap second the count goes on from
/// the second behind it.
pub open spec fn moment_days_before(seconds: i64, nanoseconds: u32, days: i64) -> (int, int) {
    if nanoseconds < 1_000_000_000 {
        (seconds - days * 86_400, nanoseconds as int)
    } else {
        (seconds + 1 - days * 86_400, nanoseconds - 1_000_000_000)
    }
}

/// Calls `chrono::DateTime`'s subtraction of a `chrono::TimeDelta` of whole days.
///
/// Claimed: a day is 86400 seconds and the fraction of the second stays, but for a leap second,
/// which becomes the second behind it.
#[verifier::external_body]
fn subtract_days(seconds: i64, nanoseconds: u32, days: i64) -> (earlier: (i64, u32))
    requires
        is_moment(seconds, nanoseconds),
        0 < days,
        seconds - days * 86_400 >= MIN_SECONDS,
    ensures
        earlier.0 == moment_days_before(seconds, nanoseconds, days).0,
        earlier.1 == moment_days_before(seconds, nanoseconds, days).1,
{
    let moment: DateTime<Utc> = DateTime::from_timestamp(seconds, nanoseconds).unwrap();
    let earlier = moment - TimeDelta::days(days);
    (earlier.timestamp(), earlier.timestamp_subsec_nanos())
}

/// A moment of the calendar in UTC.
#[derive(Debug, Clone, Copy, PartialEq, Eq, Structural)]
pub struct Timestamp {
    seconds: i64,
    nanoseconds: u32,
}

impl Timestamp {
    /// Seconds since the beginning of 1970.
    pub closed spec fn spec_seconds(self) -> i64 {
        self.seconds
    }

    /// Nanoseconds since that second; a billion and more within a leap second.
    pub closed spec fn spec_nanoseconds(self) -> u32 {
        self.nanoseconds
    }

    #[verifier::type_invariant]
    spec fn in_calendar(self) -> bool {
        is_moment(self.seconds, self.nanoseconds)
    }

    /// The moment `nanoseconds` after `seconds`, if the calendar has it.
    pub fn new(seconds: i64, nanoseconds: u32) -> (timestamp: Option<Self>)
        ensures
            timestamp is Some <==> is_moment(seconds, nanoseconds),
            timestamp matches Some(t) ==> t.spec_seconds() == seconds && t.spec_nanoseconds()
                == nanoseconds,
    {
        if seconds < MIN_SECONDS || seconds > MAX_SECONDS || nanoseconds >= 2_000_000_000 {
            return None;
        }
        let since_first: u64 = (seconds - MIN_SECONDS) as u64;
        if nanoseconds >= 1_000_000_000 && since_first % 60 != 59 {
            return None;
        }
        Some(Timestamp { seconds, nanoseconds })
    }

    /// Seconds since the beginning of 1970.
    pub fn seconds(&self) -> (seconds: i64)
        ensures
            seconds == self.spec_seconds(),
    {
        self.seconds
    }

    /// Nanoseconds since that second.
    pub fn nanoseconds(&self) -> (nanoseconds: u32)
        ensures
            nanoseconds == self.spec_nanoseconds(),
    {
        self.nanoseconds
    }

    /// This moment is `other` or comes after it.
    pub open spec fn not_before(self, other: Self) -> bool {
        ||| self.spec_seconds() > other.spec_seconds()
        ||| self.spec_seconds() == other.spec_seconds() && self.spec_nanoseconds()
            >= other.spec_nanoseconds()
    }

    /// Whether this moment is `other` or comes after it.
    pub fn is_not_before(&self, other: &Self) -> (later: bool)
        ensures
            later == self.not_before(*other),
    {
        self.seconds > other.seconds || (self.seconds == other.seconds && self.nanoseconds
            >= other.nanoseconds)
    }

    /// The moment as RFC 3339 text.
    pub open spec fn text(self) -> Seq<char> {
        rfc3339_text(self.spec_seconds(), self.spec_nanoseconds())
    }

    /// The moment as RFC 3339 text.
    pub fn to_rfc3339(&self) -> (text: String)
        ensures
            text@ == self.text(),
    {
        proof {
            use_type_invariant(self);
        }
        rfc3339(self.seconds, self.nanoseconds)
    }

    /// `earlier` is the moment `days` days before this one.
    pub open spec fn is_days_before(self, earlier: Self, days: i64) -> bool {
        (earlier.spec_seconds() as int, earlier.spec_nanoseconds() as int) == moment_days_before(
            self.spec_seconds(),
            self.spec_nanoseconds(),
            days,
        )
    }

    /// The moment `days` days before this one.
    pub fn days_before(&self, days: i64) -> (earlier: Self)
        requires
            0 < days,
            self.spec_seconds() - days * 86_400 >= MIN_SECONDS,
        ensures
            self.is_days_before(earlier, days),
    {
        proof {
            use_type_invariant(self);
        }
        let (seconds, nanoseconds) = subtract_days(self.seconds, self.nanoseconds, days);
        Timestamp { seconds, nanoseconds }
    }
}

/// The calendar has the whole seconds of the years that it covers, each with a billion nanoseconds,
/// and a second billion where the second is the last of its minute.
pub proof fn law_calendar_has_whole_seconds(seconds: i64, nanoseconds: u32)
    ensures
        !is_moment(seconds, nanoseconds) <==> seconds < -8_334_601_228_800 || seconds
            > 8_210_266_876_799 || nanoseconds >= 2_000_000_000 || nanoseconds >= 1_000_000_000
            && (seconds - 59) % 60 != 0,
{
}

/// Moments stand in one order: by the second, and within a second by the nanosecond.
pub proof fn law_moments_stand_in_order(a: Timestamp, b: Timestamp, c: Timestamp)
    ensures
        a.spec_seconds() > b.spec_seconds() ==> a.not_before(b) && !b.not_before(a),
        a.spec_seconds() == b.spec_seconds() ==> (a.not_before(b) <==> a.spec_nanoseconds()
            >= b.spec_nanoseconds()),
        a.not_before(a),
        a.not_before(b) || b.not_before(a),
        a.not_before(b) && b.not_before(a) ==> a.spec_seconds() == b.spec_seconds()
            && a.spec_nanoseconds() == b.spec_nanoseconds(),
        a.not_before(b) && b.not_before(c) ==> a.not_before(c),
{
}

/// A day is 86400 seconds: that many nanoseconds for each day lie between a moment and the one so many
/// days before it. The earlier one is within no leap second.
pub proof fn law_days_are_of_equal_length(later: Timestamp, earlier: Timestamp, days: i64)
    requires
        later.is_days_before(earlier, days),
        later.spec_nanoseconds() < 2_000_000_000,
    ensures
        (later.spec_seconds() * 1_000_000_000 + later.spec_nanoseconds()) - (earlier.spec_seconds()
            * 1_000_000_000 + earlier.spec_nanoseconds()) == days * 86_400_000_000_000,
        earlier.spec_nanoseconds() < 1_000_000_000,
{
}

} // verus!
