//! Points in time, and their RFC 3339 text.
use vstd::prelude::*;
use vstd::string::*;

use crate::text;

verus! {

/// A point in time in UTC: whole seconds since 1970 and the nanoseconds after
/// them. A leap second counts as a 59th second with a billion or more
/// nanoseconds.
#[derive(Clone, Copy, Debug, PartialEq, Eq, Structural)]
pub struct Timestamp {
    pub seconds: i64,
    pub nanos: u32,
}

impl Timestamp {
    /// The time lies in the calendar's range, and only a 59th second is long.
    pub open spec fn valid(self) -> bool {
        &&& -8334601228800 <= self.seconds <= 8210266876799
        &&& self.nanos < 2_000_000_000
        &&& self.nanos < 1_000_000_000 || self.seconds % 60 == 59
    }

    /// The year has four digits, as RFC 3339 wants it.
    pub open spec fn four_digit_year(self) -> bool {
        -62167219200 <= self.seconds <= 253402300799
    }

    /// `self` is before `other`.
    pub open spec fn before(self, other: Timestamp) -> bool {
        self.seconds < other.seconds || (self.seconds == other.seconds && self.nanos < other.nanos)
    }

    /// The later of the two.
    pub open spec fn later(self, other: Timestamp) -> Timestamp {
        if self.before(other) {
            other
        } else {
            self
        }
    }

    /// The earlier of the two.
    pub open spec fn earlier(self, other: Timestamp) -> Timestamp {
        if other.before(self) {
            other
        } else {
            self
        }
    }

    pub fn is_before(&self, other: &Timestamp) -> (r: bool)
        ensures
            r == self.before(*other),
    {
        self.seconds < other.seconds || (self.seconds == other.seconds && self.nanos < other.nanos)
    }

    pub fn max_of(self, other: Timestamp) -> (r: Timestamp)
        ensures
            r == self.later(other),
    {
        if self.is_before(&other) {
            other
        } else {
            self
        }
    }

    pub fn min_of(self, other: Timestamp) -> (r: Timestamp)
        ensures
            r == self.earlier(other),
    {
        if other.is_before(&self) {
            other
        } else {
            self
        }
    }
}

/// What `chrono::DateTime::parse_from_rfc3339` reads in a text: the instant as
/// seconds and nanoseconds, where it reads one.
pub uninterp spec fn rfc3339_instant(s: Seq<char>) -> Option<(i64, u32)>;

/// What `chrono::DateTime::<Utc>::to_rfc3339` writes for an instant.
pub uninterp spec fn rfc3339_text(seconds: i64, nanos: u32) -> Seq<char>;

/// The time that an RFC 3339 text names.
pub open spec fn time_of_text(s: Seq<char>) -> Option<Timestamp> {
    match rfc3339_instant(s) {
        Some((seconds, nanos)) => Some(Timestamp { seconds, nanos }),
        None => None,
    }
}

/// The RFC 3339 text of a time.
pub open spec fn text_of_time(t: Timestamp) -> Seq<char> {
    rfc3339_text(t.seconds, t.nanos)
}

/// `chrono::DateTime::parse_from_rfc3339`, taken to UTC: what it reads depends
/// on the text alone and always lies in the calendar's range.
#[verifier::external_body]
fn read_rfc3339(s: &str) -> (instant: Option<(i64, u32)>)
    ensures
        instant == rfc3339_instant(s@),
        instant matches Some((seconds, nanos)) ==> (Timestamp { seconds, nanos }).valid(),
{
    chrono::DateTime::parse_from_rfc3339(s).ok().map(|t| (t.timestamp(), t.timestamp_subsec_nanos()))
}

/// `chrono::DateTime::<Utc>::to_rfc3339`: what it writes depends on the instant
/// alone, and `parse_from_rfc3339` reads it back where the year has four
/// digits.
#[verifier::external_body]
fn write_rfc3339(seconds: i64, nanos: u32) -> (s: String)
    requires
        (Timestamp { seconds, nanos }).valid(),
    ensures
        s@ == rfc3339_text(seconds, nanos),
        (Timestamp { seconds, nanos }).four_digit_year() ==> rfc3339_instant(s@) == Some(
            (seconds, nanos),
        ),
{
    chrono::DateTime::<chrono::Utc>::from_timestamp(seconds, nanos).unwrap().to_rfc3339()
}

/// Read an RFC 3339 text.
pub fn parse_time(s: &str) -> (t: Option<Timestamp>)
    ensures
        t == time_of_text(s@),
        t matches Some(t) ==> t.valid(),
{
    match read_rfc3339(s) {
        Some((seconds, nanos)) => Some(Timestamp { seconds, nanos }),
        None => None,
    }
}

/// Write a time as RFC 3339 text.
pub fn time_text(t: Timestamp) -> (s: String)
    requires
        t.valid(),
    ensures
        s@ == text_of_time(t),
        t.four_digit_year() ==> time_of_text(s@) == Some(t),
{
    write_rfc3339(t.seconds, t.nanos)
}

/// The order of times is total.
pub proof fn law_time_order_is_total(a: Timestamp, b: Timestamp, c: Timestamp)
    ensures
        a.before(b) || b.before(a) || a == b,
        !(a.before(b) && b.before(a)),
        a.before(b) && b.before(c) ==> a.before(c),
        a.later(b) == b.later(a),
        a.earlier(b) == b.earlier(a),
{
}

} // verus!
