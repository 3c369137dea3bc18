//! Moments of the calendar.
use crate::duration::NANOS_PER_SEC;
use time::format_description::well_known::Rfc3339;
use time::{OffsetDateTime, UtcOffset};
use vstd::prelude::*;

verus! {

/// The first nanosecond of the year 0, counted from the start of 1970.
pub const FIRST_NANO: i128 = -62_167_219_200_000_000_000;

/// The first nanosecond past the year 9999, counted from the start of 1970.
pub const END_NANO: i128 = 253_402_300_800_000_000_000;

/// A date and time of day together with the offset from UTC in which it is told.
#[derive(Clone, Copy, Debug, PartialEq, Eq, Structural)]
pub struct Timestamp {
    /// Nanoseconds from 1970-01-01T00:00:00, both told in the same offset.
    pub local_nanos: i128,
    /// Minutes that the offset is ahead of UTC.
    pub offset_minutes: i16,
}

/// The RFC 3339 text of a date and time.
pub uninterp spec fn rfc3339_text(local_nanos: i128, offset_minutes: i16) -> Seq<char>;

/// A character of an RFC 3339 text.
pub open spec fn is_timestamp_char(c: char) -> bool {
    '0' <= c <= '9' || c == '-' || c == ':' || c == 'T' || c == '.' || c == 'Z' || c == '+'
}

/// Writes a date and time with `OffsetDateTime::format` as `Rfc3339`.
///
/// The format is defined for the years 0 to 9999 and for offsets of whole minutes below a day.
/// The text is a function of the date, the time and the offset. It holds digits, the separators
/// of a date and of a time of day, and an offset.
#[verifier::external_body]
fn format_rfc3339(local_nanos: i128, offset_minutes: i16) -> (text: String)
    requires
        FIRST_NANO <= local_nanos < END_NANO,
        -1440 < offset_minutes < 1440,
    ensures
        text@ == rfc3339_text(local_nanos, offset_minutes),
        forall|i: int| 0 <= i < text@.len() ==> is_timestamp_char(#[trigger] text@[i]),
{
    let offset = UtcOffset::from_whole_seconds(i32::from(offset_minutes) * 60).unwrap();
    let moment = OffsetDateTime::from_unix_timestamp_nanos(local_nanos).unwrap();
    moment.replace_offset(offset).format(&Rfc3339).unwrap()
}

/// Reads the clock of the machine with `OffsetDateTime::now_utc`.
///
/// The moment is told in UTC. Which moment it is, the clock decides. A clock that is set past the
/// year 9999 or before the year -9999 makes the call panic.
#[verifier::external_body]
fn now_utc() -> (moment: Timestamp)
    ensures
        moment.offset_minutes == 0,
{
    Timestamp {
        local_nanos: OffsetDateTime::now_utc().unix_timestamp_nanos(),
        offset_minutes: 0,
    }
}

impl Timestamp {
    /// The moment that the clock of the machine tells, in UTC.
    pub fn now() -> (moment: Timestamp)
        ensures
            moment.offset_minutes == 0,
    {
        now_utc()
    }

    /// Whether the moment has an RFC 3339 text: a year from 0 to 9999 and an offset below a day.
    pub open spec fn valid(self) -> bool {
        &&& FIRST_NANO <= self.local_nanos < END_NANO
        &&& -1440 < self.offset_minutes < 1440
    }

    /// Whether the moment has an RFC 3339 text.
    pub fn is_valid(&self) -> (result: bool)
        ensures
            result == self.valid(),
    {
        FIRST_NANO <= self.local_nanos && self.local_nanos < END_NANO && -1440
            < self.offset_minutes && self.offset_minutes < 1440
    }

    /// A moment told in UTC.
    pub fn from_unix_nanos(nanos: i128) -> (result: Timestamp)
        ensures
            result == (Timestamp { local_nanos: nanos, offset_minutes: 0 }),
    {
        Timestamp { local_nanos: nanos, offset_minutes: 0 }
    }

    /// The moment `secs` seconds later, where it still lies before the year 10000.
    pub fn plus_secs(&self, secs: u64) -> (result: Option<Timestamp>)
        requires
            self.valid(),
        ensures
            result is Some <==> self.local_nanos + secs * NANOS_PER_SEC < END_NANO,
            result matches Some(later) ==> {
                &&& later.valid()
                &&& later.local_nanos == self.local_nanos + secs * NANOS_PER_SEC
                &&& later.offset_minutes == self.offset_minutes
            },
    {
        let span = secs as u128 * NANOS_PER_SEC;
        let later = self.local_nanos + span as i128;
        if later < END_NANO {
            Some(Timestamp { local_nanos: later, offset_minutes: self.offset_minutes })
        } else {
            None
        }
    }

    /// The RFC 3339 text of the moment.
    pub fn to_text(&self) -> (text: String)
        requires
            self.valid(),
        ensures
            text@ == rfc3339_text(self.local_nanos, self.offset_minutes),
            forall|i: int| 0 <= i < text@.len() ==> is_timestamp_char(#[trigger] text@[i]),
    {
        format_rfc3339(self.local_nanos, self.offset_minutes)
    }
}

} // verus!
